//! Integer-coordinate variant of the triangulator.
//!
//! Uses exact integer arithmetic, avoiding floating-point rounding errors.
use vstd::prelude::*;

pub mod area;
mod clip;
mod cure;
pub mod ears;
mod filter;
pub mod geom;
mod holes;
mod pass;
pub mod nodes;
pub mod polygon;
mod zorder;

use crate::integer::clip::{
    convex_four, convex_three, ear_triangle, earcut_linked, flat_three, four_triangles, max_triangles,
    z_mode_ok, Pass, NO_HASH,
};
use crate::integer::geom::{
    diff_product, equals, in_grid, lemma_mul_bounded, same_point, shift_for_z_order,
    small_path_spec, tri_area, use_small_path, Point,
};
use crate::integer::holes::{all_z_none, eliminate_hole, lemma_all_z_none_covers, sort_holes};
use crate::integer::pass::first_pass;
use crate::integer::nodes::{
    arena_ok, insert_effect, insert_node, is_ring, lemma_ring_basics, lemma_ring_frame,
    lemma_ring_insert, lemma_ring_insert_first, lemma_ring_remove, lemma_ring_remove_single,
    lemma_rotate, node_links_in, remove_node, rotate, Node,
};
use crate::integer::polygon::{get_leftmost, xy_of};

verus! {

/// Index of a vertex
pub trait Index: Copy + Sized {
    /// The vertex number that this index stands for.
    spec fn to_nat(self) -> nat;

    /// The index that `from_usize` makes of vertex number `v` (the index type
    /// keeps the low bits that it has room for).
    spec fn from_nat(v: nat) -> Self;

    fn into_usize(self) -> (r: usize)
        ensures
            r as nat == self.to_nat(),
    ;

    fn from_usize(v: usize) -> (r: Self)
        ensures
            r == Self::from_nat(v as nat),
    ;
}

impl Index for u32 {
    open spec fn to_nat(self) -> nat {
        self as nat
    }

    open spec fn from_nat(v: nat) -> u32 {
        v as u32
    }

    fn into_usize(self) -> (r: usize) {
        self as usize
    }

    fn from_usize(v: usize) -> (r: Self) {
        v as Self
    }
}

impl Index for u16 {
    open spec fn to_nat(self) -> nat {
        self as nat
    }

    open spec fn from_nat(v: nat) -> u16 {
        v as u16
    }

    fn into_usize(self) -> (r: usize) {
        self as usize
    }

    fn from_usize(v: usize) -> (r: Self) {
        v as Self
    }
}

impl Index for usize {
    open spec fn to_nat(self) -> nat {
        self as nat
    }

    open spec fn from_nat(v: nat) -> usize {
        v as usize
    }

    fn into_usize(self) -> (r: usize) {
        self
    }

    fn from_usize(v: usize) -> (r: Self) {
        v as Self
    }
}

/// `x` is the index of one of the first `dlen` vertices.
pub open spec fn is_vertex_index<N: Index>(x: N, dlen: nat) -> bool {
    exists|i: nat| i < dlen && x == #[trigger] N::from_nat(i)
}

/// `new` is `old` followed by whole triangles of vertex indices below `dlen`.
pub open spec fn triangles_appended<N: Index>(old: Seq<N>, new: Seq<N>, dlen: nat) -> bool {
    &&& new.len() >= old.len()
    &&& (new.len() - old.len()) % 3 == 0
    &&& new.subrange(0, old.len() as int) == old
    &&& forall|k: int| old.len() <= k < new.len() ==> is_vertex_index(#[trigger] new[k], dlen)
}

pub proof fn lemma_triangles_refl<N: Index>(s: Seq<N>, dlen: nat)
    ensures
        triangles_appended(s, s, dlen),
{
    assert(s.subrange(0, s.len() as int) =~= s);
}

pub proof fn lemma_triangles_trans<N: Index>(a: Seq<N>, b: Seq<N>, c: Seq<N>, dlen: nat)
    requires
        triangles_appended(a, b, dlen),
        triangles_appended(b, c, dlen),
    ensures
        triangles_appended(a, c, dlen),
{
    assert(c.subrange(0, a.len() as int) =~= b.subrange(0, a.len() as int)) by {
        assert forall|k: int| 0 <= k < a.len() implies c[k] == b[k] by {
            assert(c.subrange(0, b.len() as int)[k] == b[k]);
        }
    }
    assert forall|k: int| a.len() <= k < c.len() implies is_vertex_index(#[trigger] c[k], dlen) by {
        if k < b.len() {
            assert(c.subrange(0, b.len() as int)[k] == b[k]);
            assert(is_vertex_index(b[k], dlen));
        }
    }
}

/// Appends the triangle of vertices `a b c`.
pub fn push_triangle<N: Index>(triangles: &mut Vec<N>, a: u32, b: u32, c: u32, Ghost(dlen): Ghost<nat>)
    requires
        a < dlen,
        b < dlen,
        c < dlen,
    ensures
        triangles_appended(old(triangles)@, final(triangles)@, dlen),
        final(triangles)@ == old(triangles)@ + seq![
            N::from_nat(a as nat),
            N::from_nat(b as nat),
            N::from_nat(c as nat),
        ],
{
    let ghost old_t = triangles@;
    triangles.push(N::from_usize(a as usize));
    triangles.push(N::from_usize(b as usize));
    triangles.push(N::from_usize(c as usize));
    assert(triangles@ =~= old_t + seq![
        N::from_nat(a as nat),
        N::from_nat(b as nat),
        N::from_nat(c as nat),
    ]);
    assert(triangles@.subrange(0, old_t.len() as int) =~= old_t);
    assert forall|k: int| old_t.len() <= k < triangles@.len() implies is_vertex_index(
        #[trigger] triangles@[k],
        dlen,
    ) by {
        if k == old_t.len() {
            assert(triangles@[k] == N::from_nat(a as nat));
        } else if k == old_t.len() + 1 {
            assert(triangles@[k] == N::from_nat(b as nat));
        } else {
            assert(triangles@[k] == N::from_nat(c as nat));
        }
    }
}

pub open spec fn abs_int(v: int) -> int {
    if v < 0 {
        -v
    } else {
        v
    }
}

/// Term `k` of the shoelace sum of ring `s`: the edge that ends at `s[k]`.
pub open spec fn shoelace_term(s: Seq<Point>, k: int) -> int {
    let b = if k == 0 {
        s[s.len() - 1]
    } else {
        s[k - 1]
    };
    (b[0] - s[k][0]) * (s[k][1] + b[1])
}

/// The sum of the first `k` shoelace terms of ring `s`.
pub open spec fn shoelace_upto(s: Seq<Point>, k: int) -> int
    decreases k,
{
    if k <= 0 {
        0
    } else {
        shoelace_upto(s, k - 1) + shoelace_term(s, k - 1)
    }
}

/// Twice the signed area of ring `s`.
pub open spec fn ring_area(s: Seq<Point>) -> int {
    shoelace_upto(s, s.len() as int)
}

/// A shoelace term is at most `2^64` in size.
proof fn lemma_term_bound(s: Seq<Point>, k: int)
    requires
        0 <= k < s.len(),
    ensures
        -0x1_0000_0000_0000_0000 <= shoelace_term(s, k) <= 0x1_0000_0000_0000_0000,
{
    let b = if k == 0 {
        s[s.len() - 1]
    } else {
        s[k - 1]
    };
    lemma_mul_bounded(b[0] - s[k][0], s[k][1] + b[1], 0x1_0000_0000);
}

/// signed area of a polygon ring (twice the geometric area)
pub fn signed_area(data: &[Point]) -> (sum: i128)
    requires
        1 <= data@.len() <= 0x1000_0000_0000_0000,
    ensures
        sum == ring_area(data@),
{
    let n = data.len();
    let last = data[n - 1];
    let mut bx = last[0];
    let mut by = last[1];
    let mut sum: i128 = 0;
    let mut k: usize = 0;
    while k < n
        invariant
            n == data@.len(),
            1 <= n <= 0x1000_0000_0000_0000,
            0 <= k <= n,
            sum == shoelace_upto(data@, k as int),
            -(k * 0x1_0000_0000_0000_0000) <= sum <= k * 0x1_0000_0000_0000_0000,
            k == 0 ==> bx == data@[n - 1][0] && by == data@[n - 1][1],
            k > 0 ==> bx == data@[k - 1][0] && by == data@[k - 1][1],
        decreases n - k,
    {
        let a = data[k];
        proof {
            lemma_term_bound(data@, k as int);
        }
        let term = (bx as i128 - a[0] as i128) * (a[1] as i128 + by as i128);
        sum = sum + term;
        bx = a[0];
        by = a[1];
        k = k + 1;
    }
    sum
}

/// Where the outer ring of `data` ends: at the first hole, or at the end.
pub open spec fn outer_end<N: Index>(holes: Seq<N>, dlen: int) -> int {
    if holes.len() > 0 {
        holes[0].to_nat() as int
    } else {
        dlen
    }
}

/// Where hole ring `i` ends: at the next hole, or at the end of `data`.
pub open spec fn hole_end<N: Index>(holes: Seq<N>, i: int, dlen: int) -> int {
    if i + 1 < holes.len() {
        holes[i + 1].to_nat() as int
    } else {
        dlen
    }
}

/// The hole starts are in order and within `data`.
pub open spec fn holes_ok<N: Index>(holes: Seq<N>, dlen: int) -> bool {
    &&& forall|i: int, j: int| 0 <= i <= j < holes.len() ==> holes[i].to_nat() <= holes[j].to_nat()
    &&& forall|i: int| 0 <= i < holes.len() ==> holes[i].to_nat() <= dlen
}

/// The summed areas (twice, unsigned) of the first `k` hole rings that have
/// at least three points.
pub open spec fn holes_area_upto<N: Index>(data: Seq<Point>, holes: Seq<N>, k: int) -> int
    decreases k,
{
    if k <= 0 {
        0
    } else {
        let s = holes[k - 1].to_nat() as int;
        let e = hole_end(holes, k - 1, data.len() as int);
        holes_area_upto(data, holes, k - 1) + if e - s >= 3 {
            abs_int(ring_area(data.subrange(s, e)))
        } else {
            0
        }
    }
}

/// Twice the area of the polygon: its outer ring's less its holes'; zero for
/// a polygon of fewer than three points.
pub open spec fn polygon_area<N: Index>(data: Seq<Point>, holes: Seq<N>) -> int {
    let o = outer_end(holes, data.len() as int);
    if data.len() < 3 || o < 3 {
        0
    } else {
        abs_int(ring_area(data.subrange(0, o))) - holes_area_upto(data, holes, holes.len() as int)
    }
}

/// Twice the signed area of the triangle `a b c`.
pub open spec fn cross_area(a: Point, b: Point, c: Point) -> int {
    (a[0] - c[0]) * (b[1] - a[1]) - (a[0] - b[0]) * (c[1] - a[1])
}

/// The summed areas (twice, unsigned) of the first `k` triangles.
pub open spec fn triangles_area_upto<N: Index>(data: Seq<Point>, tris: Seq<N>, k: int) -> int
    decreases k,
{
    if k <= 0 {
        0
    } else {
        let j = 3 * (k - 1);
        triangles_area_upto(data, tris, k - 1) + abs_int(
            cross_area(
                data[tris[j].to_nat() as int],
                data[tris[j + 1].to_nat() as int],
                data[tris[j + 2].to_nat() as int],
            ),
        )
    }
}

/// Twice the triangles' summed area less twice the polygon's area, unsigned.
pub open spec fn deviation_spec<N: Index>(data: Seq<Point>, holes: Seq<N>, tris: Seq<N>) -> int {
    abs_int(polygon_area(data, holes) - triangles_area_upto(data, tris, (tris.len() / 3) as int))
}

/// Each hole ring's area is at most its length times `2^64`; so is their sum.
proof fn lemma_ring_area_bound(s: Seq<Point>, k: int)
    requires
        0 <= k <= s.len(),
    ensures
        -(k * 0x1_0000_0000_0000_0000) <= shoelace_upto(s, k) <= k * 0x1_0000_0000_0000_0000,
    decreases k,
{
    if k > 0 {
        lemma_ring_area_bound(s, k - 1);
        lemma_term_bound(s, k - 1);
    }
}

/// The area of the polygon (outer ring less holes) computed exactly.
#[verifier::spinoff_prover]
fn polygon_area_exec<N: Index>(data: &[Point], hole_indices: &[N]) -> (area: i128)
    requires
        data@.len() <= 0x1000_0000_0000_0000,
        data@.len() >= 3 && outer_end(hole_indices@, data@.len() as int) >= 3 ==> holes_ok(
            hole_indices@,
            data@.len() as int,
        ),
    ensures
        area == polygon_area(data@, hole_indices@),
        -0x1000_0000_0000_0000_0000_0000_0000_0000 <= area <= 0x1000_0000_0000_0000_0000_0000_0000_0000,
{
    let has_holes = hole_indices.len() > 0;
    let outer_len = if has_holes {
        hole_indices[0].into_usize()
    } else {
        data.len()
    };
    if data.len() < 3 || outer_len < 3 {
        return 0;
    }
    let ghost dlen = data@.len() as int;
    proof {
        if has_holes {
            assert(hole_indices@[0].to_nat() <= dlen);
        }
    }
    let outer = &data[0..outer_len];
    let whole = signed_area(outer);
    proof {
        lemma_ring_area_bound(outer@, outer@.len() as int);
    }
    let mut polygon_area: i128 = if whole < 0 {
        -whole
    } else {
        whole
    };
    let ghost top = polygon_area;
    let mut i: usize = 0;
    let ghost mut used: int = 0;
    while i < hole_indices.len()
        invariant
            data@.len() == dlen,
            3 <= dlen <= 0x1000_0000_0000_0000,
            holes_ok(hole_indices@, dlen),
            0 <= i <= hole_indices@.len(),
            has_holes == (hole_indices@.len() > 0),
            0 <= top <= dlen * 0x1_0000_0000_0000_0000,
            polygon_area == top - holes_area_upto(data@, hole_indices@, i as int),
            i > 0 ==> 0 <= holes_area_upto(data@, hole_indices@, i as int) <= (hole_end(
                hole_indices@,
                i - 1,
                dlen,
            ) - hole_indices@[0].to_nat()) * 0x1_0000_0000_0000_0000,
        decreases hole_indices@.len() - i,
    {
        let start = hole_indices[i].into_usize();
        let end = if i + 1 < hole_indices.len() {
            hole_indices[i + 1].into_usize()
        } else {
            data.len()
        };
        proof {
            if i + 1 < hole_indices@.len() {
                assert(hole_indices@[i as int].to_nat() <= hole_indices@[i + 1].to_nat());
            }
            assert(hole_indices@[0].to_nat() <= hole_indices@[i as int].to_nat());
            if i > 0 {
                assert(hole_indices@[i - 1].to_nat() <= hole_indices@[i as int].to_nat());
            }
        }
        if end - start >= 3 {
            let ring = &data[start..end];
            let a = signed_area(ring);
            proof {
                lemma_ring_area_bound(ring@, ring@.len() as int);
            }
            let a_abs = if a < 0 {
                -a
            } else {
                a
            };
            polygon_area = polygon_area - a_abs;
        }
        i = i + 1;
    }
    polygon_area
}

/// The summed area (twice, unsigned) of the triangles, computed exactly.
fn triangles_area_exec<N: Index>(data: &[Point], triangles: &[N]) -> (area: i128)
    requires
        triangles@.len() <= 0x4000_0000_0000_0000,
        forall|k: int|
            0 <= k < 3 * (triangles@.len() / 3) ==> #[trigger] triangles@[k].to_nat() < data@.len(),
    ensures
        area == triangles_area_upto(data@, triangles@, (triangles@.len() / 3) as int),
        0 <= area <= (triangles@.len() / 3) * 0x2_0000_0000_0000_0000,
{
    let tl = triangles.len();
    let count = tl / 3;
    assert(3 * count <= tl);
    let mut sum: i128 = 0;
    let mut k: usize = 0;
    while k < count
        invariant
            count == triangles@.len() / 3,
            3 * count <= tl,
            tl == triangles@.len(),
            count <= 0x1600_0000_0000_0000,
            forall|j: int|
                0 <= j < 3 * (triangles@.len() / 3) ==> #[trigger] triangles@[j].to_nat()
                    < data@.len(),
            0 <= k <= count,
            sum == triangles_area_upto(data@, triangles@, k as int),
            0 <= sum <= k * 0x2_0000_0000_0000_0000,
        decreases count - k,
    {
        let j = 3 * k;
        let a = data[triangles[j].into_usize()];
        let b = data[triangles[j + 1].into_usize()];
        let c = data[triangles[j + 2].into_usize()];
        let v = diff_product(a[0], c[0], b[1], a[1]) - diff_product(a[0], b[0], c[1], a[1]);
        let v_abs = if v < 0 {
            -v
        } else {
            v
        };
        sum = sum + v_abs;
        k = k + 1;
    }
    sum
}

/// Returns the absolute integer difference between the polygon area (times 2)
/// and its triangulation area (times 2) for `i32` coordinates. Zero indicates
/// an exact match; non-zero signals a triangulation error.
pub fn deviation<N: Index>(data: &[Point], hole_indices: &[N], triangles: &[N]) -> (r: i64)
    requires
        data@.len() <= 0x1000_0000_0000_0000,
        triangles@.len() <= 0x4000_0000_0000_0000,
        data@.len() >= 3 && outer_end(hole_indices@, data@.len() as int) >= 3 ==> holes_ok(
            hole_indices@,
            data@.len() as int,
        ),
        forall|k: int|
            0 <= k < 3 * (triangles@.len() / 3) ==> #[trigger] triangles@[k].to_nat() < data@.len(),
        deviation_spec(data@, hole_indices@, triangles@) <= i64::MAX,
    ensures
        r == deviation_spec(data@, hole_indices@, triangles@),
{
    let polygon_area = polygon_area_exec(data, hole_indices);
    let triangles_area = triangles_area_exec(data, triangles);
    let d = if polygon_area < triangles_area {
        triangles_area - polygon_area
    } else {
        polygon_area - triangles_area
    };
    d as i64
}

/// The bounding box of the input points.
#[derive(Clone, Copy)]
pub struct InputBbox {
    pub min_x: i32,
    pub min_y: i32,
    pub max_x: i32,
    pub max_y: i32,
}

impl InputBbox {
    /// The box of the single point `xy`.
    pub fn new(xy: Point) -> (b: Self)
        ensures
            b.min_x == xy[0],
            b.max_x == xy[0],
            b.min_y == xy[1],
            b.max_y == xy[1],
    {
        InputBbox { min_x: xy[0], min_y: xy[1], max_x: xy[0], max_y: xy[1] }
    }

    /// Grows the box to hold `xy`.
    pub fn update(&mut self, xy: Point)
        ensures
            final(self).min_x == if xy[0] < old(self).min_x {
                xy[0]
            } else {
                old(self).min_x
            },
            final(self).min_y == if xy[1] < old(self).min_y {
                xy[1]
            } else {
                old(self).min_y
            },
            final(self).max_x == if xy[0] > old(self).max_x {
                xy[0]
            } else {
                old(self).max_x
            },
            final(self).max_y == if xy[1] > old(self).max_y {
                xy[1]
            } else {
                old(self).max_y
            },
    {
        if xy[0] < self.min_x {
            self.min_x = xy[0];
        }
        if xy[1] < self.min_y {
            self.min_y = xy[1];
        }
        if xy[0] > self.max_x {
            self.max_x = xy[0];
        }
        if xy[1] > self.max_y {
            self.max_y = xy[1];
        }
    }
}

/// `b` is the least box that holds the first `k` points of `s`.
pub open spec fn is_bbox_of(b: InputBbox, s: Seq<Point>, k: int) -> bool {
    &&& forall|i: int|
        0 <= i < k ==> b.min_x <= (#[trigger] s[i])[0] <= b.max_x && b.min_y <= s[i][1] <= b.max_y
    &&& exists|i: int| 0 <= i < k && (#[trigger] s[i])[0] == b.min_x
    &&& exists|i: int| 0 <= i < k && (#[trigger] s[i])[1] == b.min_y
    &&& exists|i: int| 0 <= i < k && (#[trigger] s[i])[0] == b.max_x
    &&& exists|i: int| 0 <= i < k && (#[trigger] s[i])[1] == b.max_y
}

/// The bounding box of the points of `data`.
#[verifier::spinoff_prover]
pub fn input_bbox(data: &[Point]) -> (b: InputBbox)
    requires
        data@.len() >= 1,
    ensures
        is_bbox_of(b, data@, data@.len() as int),
{
    let mut bbox = InputBbox::new(data[0]);
    let mut k: usize = 1;
    while k < data.len()
        invariant
            1 <= k <= data@.len(),
            is_bbox_of(bbox, data@, k as int),
        decreases data@.len() - k,
    {
        let xy = data[k];
        let ghost b0 = bbox;
        bbox.update(xy);
        proof {
            let kk = k as int;
            assert(data@[kk] == xy);
            if xy[0] < b0.min_x {
                assert(data@[kk][0] == bbox.min_x);
            } else {
                let i = choose|i: int| 0 <= i < kk && (#[trigger] data@[i])[0] == b0.min_x;
                assert(data@[i][0] == bbox.min_x);
            }
            if xy[1] < b0.min_y {
                assert(data@[kk][1] == bbox.min_y);
            } else {
                let i = choose|i: int| 0 <= i < kk && (#[trigger] data@[i])[1] == b0.min_y;
                assert(data@[i][1] == bbox.min_y);
            }
            if xy[0] > b0.max_x {
                assert(data@[kk][0] == bbox.max_x);
            } else {
                let i = choose|i: int| 0 <= i < kk && (#[trigger] data@[i])[0] == b0.max_x;
                assert(data@[i][0] == bbox.max_x);
            }
            if xy[1] > b0.max_y {
                assert(data@[kk][1] == bbox.max_y);
            } else {
                let i = choose|i: int| 0 <= i < kk && (#[trigger] data@[i])[1] == b0.max_y;
                assert(data@[i][1] == bbox.max_y);
            }
        }
        k = k + 1;
    }
    bbox
}

/// How many nodes `linked_list` leaves in the ring of `data[start..end]`:
/// one fewer when the last point repeats the first.
pub open spec fn ring_count(data: Seq<Point>, start: int, end: int) -> int {
    if end - start >= 2 && same_point(data[start], data[end - 1]) {
        end - start - 1
    } else {
        end - start
    }
}

/// The outer ring has two nodes or fewer, too few to triangulate.
pub open spec fn outer_collapsed<N: Index>(data: Seq<Point>, holes: Seq<N>) -> bool {
    ring_count(data, 0, outer_end(holes, data.len() as int)) <= 2
}

/// The point of `data[start..end]` that the `j`-th node made for it stands for.
pub open spec fn list_vertex(start: int, end: int, forward: bool, j: int) -> int {
    if forward {
        start + j
    } else {
        end - 1 - j
    }
}

/// Appending a node keeps the arena invariant, and it is in no z-order list.
proof fn lemma_insert_arena(
    old: Seq<Node>,
    new: Seq<Node>,
    i: u32,
    xy: Point,
    last: Option<usize>,
    dlen: int,
)
    requires
        arena_ok(old, dlen),
        all_z_none(old),
        i < dlen,
        last matches Some(l) ==> l < old.len(),
        insert_effect(old, new, i, xy, last),
        new.len() <= usize::MAX,
    ensures
        arena_ok(new, dlen),
        all_z_none(new),
{
    let p = old.len() as int;
    if let Some(l) = last {
        assert(node_links_in(old[l as int], old.len() as int));
    }
    assert forall|j: int| 0 <= j < new.len() implies node_links_in(#[trigger] new[j], new.len() as int)
        && new[j].index < dlen && crate::integer::nodes::z_none(new[j]) by {
        if j < p {
            assert(node_links_in(old[j], old.len() as int));
            assert(old[j].index < dlen);
            assert(crate::integer::nodes::z_none(old[j]));
        }
    }
}

/// Hole ring `h` of arena `m` starts at one of its leftmost points (least x,
/// then least y), and `e` is that node with its x.
pub open spec fn hole_entry(m: Seq<Node>, h: Seq<usize>, e: (usize, i32)) -> bool {
    &&& e.0 == h[0]
    &&& e.1 == xy_of(m, h[0])[0]
    &&& forall|j: int|
        0 <= j < h.len() ==> !crate::integer::polygon::lex_less(#[trigger] xy_of(m, h[j]), xy_of(m, h[0]))
}

/// Step `k` of bridging: from arena `st[k].0` with outer ring `st[k].1`, hole
/// ring `hs[k]` (a ring of its own) is bridged from node `st[k + 1].2` when
/// the ray going left from its first node meets the outer ring, giving
/// `st[k + 1]`; otherwise nothing changes.
pub open spec fn bridge_step(
    st: Seq<(Seq<Node>, Seq<usize>, usize)>,
    hs: Seq<Seq<usize>>,
    k: int,
) -> bool {
    let m = st[k].0;
    let q = st[k].1;
    let m2 = st[k + 1].0;
    let q2 = st[k + 1].1;
    let h = hs[k];
    let hit = crate::integer::holes::ray_hits_ring(m, q, xy_of(m, h[0]));
    &&& is_ring(m, q)
    &&& is_ring(m, h)
    &&& forall|x: usize| q.contains(x) ==> !h.contains(x)
    &&& !hit ==> m2 == m && q2 == q
    &&& hit ==> m2.len() == m.len() + 2 && crate::integer::holes::bridge_merge(
        m,
        m2,
        q,
        h,
        st[k + 1].2,
        q2,
    )
}

/// Ring `r` of arena `o` is the outer ring of `data` as `earcut` links it:
/// one node for each point of `data[..e]` (`e` where the first hole starts),
/// the last left out when it repeats the first, listed forwards when the
/// points' signed area is positive and backwards otherwise, starting from
/// the last node linked (or, with the last point left out, the first); each
/// node with its point, not a Steiner point and without a z value yet.
pub open spec fn outer_ring_nodes<N: Index>(
    data: Seq<Point>,
    holes: Seq<N>,
    o: Seq<Node>,
    r: Seq<usize>,
) -> bool {
    let e = outer_end(holes, data.len() as int);
    let fwd = ring_area(data.subrange(0, e)) > 0;
    let cnt = r.len() as int;
    &&& is_ring(o, r)
    &&& cnt == ring_count(data, 0, e)
    &&& forall|k: int|
        0 <= k < cnt ==> {
            let x = #[trigger] o[r[k] as int];
            let j = if cnt == e {
                if k == 0 {
                    cnt - 1
                } else {
                    k - 1
                }
            } else {
                k
            };
            &&& x.index == list_vertex(0, e, fwd, j)
            &&& x.xy == data[x.index as int]
            &&& x.z == 0
            &&& !x.steiner
        }
}

/// The record `tr == (st, hs, qs)` of bridging the holes of `data`:
/// `st[0]` holds the arena with a ring for each hole that has points (`hs`,
/// one ring for each such hole, each with its leftmost node in `qs`, in an
/// order that never puts a hole before one it should follow), and step `k`
/// takes `st[k]` to `st[k + 1]` by bridging hole ring `hs[k]` into the ring
/// of `st[k]` where the hole's leftward ray meets it.
pub open spec fn holes_bridged<N: Index>(
    data: Seq<Point>,
    holes: Seq<N>,
    tr: (Seq<(Seq<Node>, Seq<usize>, usize)>, Seq<Seq<usize>>, Seq<(usize, i32)>),
) -> bool {
    let (st, hs, qs) = tr;
    let dlen = data.len() as int;
    &&& st.len() == hs.len() + 1
    &&& qs.len() == hs.len()
    &&& hs.len() <= holes.len()
    &&& forall|k: int| 0 <= k < hs.len() ==> #[trigger] hole_entry(st[0].0, hs[k], qs[k])
    &&& forall|k: int|
        0 <= k && k + 1 < qs.len() ==> !crate::integer::holes::hole_before(
            st[0].0,
            #[trigger] qs[k + 1],
            qs[k],
        )
    &&& forall|j: int, k: int|
        0 <= j <= k < qs.len() ==> crate::integer::holes::entry_le(st[0].0, #[trigger] qs[j], #[trigger] qs[k])
    &&& forall|k: int| 0 <= k < hs.len() ==> #[trigger] bridge_step(st, hs, k)
    &&& forall|k: int|
        0 <= k < holes.len() && holes[k].to_nat() < hole_end(holes, k, dlen) ==> #[trigger] hole_listed(
            st[0].0,
            hs,
            holes[k].to_nat() as int,
            hole_end(holes, k, dlen),
        )
}

/// Holes are bridged from left to right: no point of a hole bridged later
/// lies left of the leftmost point of a hole bridged earlier.
pub proof fn lemma_holes_left_to_right<N: Index>(
    data: Seq<Point>,
    holes: Seq<N>,
    tr: (Seq<(Seq<Node>, Seq<usize>, usize)>, Seq<Seq<usize>>, Seq<(usize, i32)>),
    j: int,
    k: int,
    t: int,
)
    requires
        holes_bridged(data, holes, tr),
        0 <= j < k < tr.1.len(),
        0 <= t < tr.1[k].len(),
    ensures
        xy_of(tr.0[0].0, tr.1[j][0])[0] <= xy_of(tr.0[0].0, tr.1[k][t])[0],
{
    let (st, hs, qs) = tr;
    assert(hole_entry(st[0].0, hs[j], qs[j]));
    assert(hole_entry(st[0].0, hs[k], qs[k]));
    assert(crate::integer::holes::entry_le(st[0].0, qs[j], qs[k]));
    assert(!crate::integer::polygon::lex_less(xy_of(st[0].0, hs[k][t]), xy_of(st[0].0, hs[k][0])));
}

/// Some node of the arena stands for a vertex in `lo..hi` and is a Steiner
/// point, which filtering never removes.
pub open spec fn has_steiner_point(nodes: Seq<Node>, lo: int, hi: int) -> bool {
    exists|x: int|
        0 <= x < nodes.len() && lo <= nodes[x].index < hi && #[trigger] nodes[x].steiner
}

/// Hole ring `k` of `data` has a single node: one point, or points that are
/// all the first once the repeated last one is left out.
pub open spec fn point_hole<N: Index>(data: Seq<Point>, holes: Seq<N>, k: int) -> bool {
    ring_count(data, holes[k].to_nat() as int, hole_end(holes, k, data.len() as int)) == 1
}

/// `h` is a ring of arena nodes whose vertices all come from `data[lo..hi]`.
pub open spec fn ring_of_range(nodes: Seq<Node>, h: Seq<usize>, lo: int, hi: int) -> bool {
    &&& h.len() > 0
    &&& forall|t: int|
        0 <= t < h.len() ==> #[trigger] h[t] < nodes.len() && lo <= nodes[h[t] as int].index < hi
}

/// One of the rings `hs` was built from the vertices `data[lo..hi]`.
#[verifier::opaque]
pub open spec fn hole_listed(nodes: Seq<Node>, hs: Seq<Seq<usize>>, lo: int, hi: int) -> bool {
    exists|j: int| 0 <= j < hs.len() && #[trigger] ring_of_range(nodes, hs[j], lo, hi)
}

/// A listed ring stays listed when the arena grows without changing the
/// vertices of its nodes and the list grows at its end.
proof fn lemma_listed_grow(
    m0: Seq<Node>,
    m1: Seq<Node>,
    hs: Seq<Seq<usize>>,
    hs2: Seq<Seq<usize>>,
    lo: int,
    hi: int,
)
    requires
        hole_listed(m0, hs, lo, hi),
        m0.len() <= m1.len(),
        forall|x: int| 0 <= x < m0.len() ==> (#[trigger] m1[x]).index == m0[x].index,
        hs.len() <= hs2.len(),
        forall|j: int| 0 <= j < hs.len() ==> #[trigger] hs2[j] == hs[j],
    ensures
        hole_listed(m1, hs2, lo, hi),
{
    reveal(hole_listed);
    let j = choose|j: int| 0 <= j < hs.len() && #[trigger] ring_of_range(m0, hs[j], lo, hi);
    let h = hs[j];
    assert(hs2[j] == h);
    assert(ring_of_range(m0, h, lo, hi));
    assert forall|t: int| 0 <= t < h.len() implies #[trigger] h[t] < m1.len() && lo <= m1[h[t] as int].index
        < hi by {
        let x = h[t] as int;
        assert(x < m0.len());
        assert(m1[x].index == m0[x].index);
    }
    assert(ring_of_range(m1, h, lo, hi));
    assert(0 <= j < hs2.len());
}

/// A ring survives a change that keeps the links of every node it had.
proof fn lemma_ring_kept(m0: Seq<Node>, m1: Seq<Node>, r: Seq<usize>)
    requires
        is_ring(m0, r),
        m0.len() <= m1.len(),
        forall|x: int| 0 <= x < m0.len() ==> (#[trigger] m1[x]).prev == m0[x].prev && m1[x].next == m0[x].next,
    ensures
        is_ring(m1, r),
{
    assert forall|k: int| 0 <= k < r.len() implies (#[trigger] m1[r[k] as int]).prev == m0[r[k] as int].prev
        && m1[r[k] as int].next == m0[r[k] as int].next by {
        lemma_ring_basics(m0, r, k);
    }
    lemma_ring_frame(m0, m1, r);
}

/// The outer ring and the hole rings, with their entries, survive a change
/// that keeps the links and the point of every node they had.
proof fn lemma_rings_kept(
    m0: Seq<Node>,
    m1: Seq<Node>,
    r: Seq<usize>,
    hs: Seq<Seq<usize>>,
    q: Seq<(usize, i32)>,
)
    requires
        m0.len() <= m1.len(),
        forall|x: int|
            0 <= x < m0.len() ==> (#[trigger] m1[x]).prev == m0[x].prev && m1[x].next == m0[x].next
                && m1[x].xy == m0[x].xy,
        is_ring(m0, r),
        q.len() == hs.len(),
        forall|k: int| 0 <= k < hs.len() ==> is_ring(m0, #[trigger] hs[k]),
        forall|k: int| 0 <= k < hs.len() ==> #[trigger] hole_entry(m0, hs[k], q[k]),
    ensures
        is_ring(m1, r),
        forall|k: int| 0 <= k < hs.len() ==> is_ring(m1, #[trigger] hs[k]),
        forall|k: int| 0 <= k < hs.len() ==> #[trigger] hole_entry(m1, hs[k], q[k]),
{
    lemma_ring_kept(m0, m1, r);
    assert forall|k: int| 0 <= k < hs.len() implies is_ring(m1, #[trigger] hs[k]) by {
        lemma_ring_kept(m0, m1, hs[k]);
    }
    assert forall|k: int| 0 <= k < hs.len() implies #[trigger] hole_entry(m1, hs[k], q[k]) by {
        assert(hole_entry(m0, hs[k], q[k]));
        assert forall|j: int| 0 <= j < hs[k].len() implies #[trigger] xy_of(m1, hs[k][j]) == xy_of(
            m0,
            hs[k][j],
        ) by {
            lemma_ring_basics(m0, hs[k], j);
        }
        lemma_ring_basics(m0, hs[k], 0);
    }
}

/// Adding a ring made of nodes past `m0` to the list of hole rings keeps
/// the rings apart from each other and from `r`, each a ring with its entry.
proof fn lemma_push_ring(
    m0: Seq<Node>,
    m: Seq<Node>,
    r: Seq<usize>,
    hs: Seq<Seq<usize>>,
    q: Seq<(usize, i32)>,
    h: Seq<usize>,
    e: (usize, i32),
)
    requires
        q.len() == hs.len(),
        is_ring(m0, r),
        forall|k: int| 0 <= k < hs.len() ==> is_ring(m0, #[trigger] hs[k]),
        forall|k: int|
            0 <= k < hs.len() ==> is_ring(m, #[trigger] hs[k]) && hs[k][0] == q[k].0,
        forall|k: int| 0 <= k < hs.len() ==> #[trigger] hole_entry(m, hs[k], q[k]),
        forall|k: int| 0 <= k < hs.len() ==> rings_apart(#[trigger] hs[k], r),
        forall|k1: int, k2: int|
            0 <= k1 < hs.len() && 0 <= k2 < hs.len() && k1 != k2 ==> rings_apart(
                #[trigger] hs[k1],
                #[trigger] hs[k2],
            ),
        is_ring(m, h),
        h[0] == e.0,
        hole_entry(m, h, e),
        forall|y: usize| h.contains(y) ==> m0.len() <= y,
    ensures
        ({
            let hs2 = hs.push(h);
            let q2 = q.push(e);
            &&& forall|k: int|
                0 <= k < hs2.len() ==> is_ring(m, #[trigger] hs2[k]) && hs2[k][0] == q2[k].0
            &&& forall|k: int| 0 <= k < hs2.len() ==> #[trigger] hole_entry(m, hs2[k], q2[k])
            &&& forall|k: int| 0 <= k < hs2.len() ==> rings_apart(#[trigger] hs2[k], r)
            &&& forall|k1: int, k2: int|
                0 <= k1 < hs2.len() && 0 <= k2 < hs2.len() && k1 != k2 ==> rings_apart(
                    #[trigger] hs2[k1],
                    #[trigger] hs2[k2],
                )
        }),
{
    let hs2 = hs.push(h);
    let q2 = q.push(e);
    assert(rings_apart(h, r)) by {
        assert forall|y: usize| h.contains(y) implies !r.contains(y) by {
            if r.contains(y) {
                let j = choose|j: int| 0 <= j < r.len() && r[j] == y;
                lemma_ring_basics(m0, r, j);
            }
        }
    }
    assert forall|k: int| 0 <= k < hs.len() implies rings_apart(h, #[trigger] hs[k]) && rings_apart(
        hs[k],
        h,
    ) by {
        assert forall|y: usize| h.contains(y) implies !hs[k].contains(y) by {
            if hs[k].contains(y) {
                let j = choose|j: int| 0 <= j < hs[k].len() && hs[k][j] == y;
                lemma_ring_basics(m0, hs[k], j);
            }
        }
    }
    assert forall|k: int| 0 <= k < hs2.len() implies #[trigger] hole_entry(m, hs2[k], q2[k]) by {
        if k < hs.len() {
            assert(hs2[k] == hs[k] && q2[k] == q[k]);
        }
    }
    assert forall|k: int| 0 <= k < hs2.len() implies is_ring(m, #[trigger] hs2[k]) && hs2[k][0] == q2[k].0 by {
        if k < hs.len() {
            assert(hs2[k] == hs[k] && q2[k] == q[k]);
        }
    }
    assert forall|k: int| 0 <= k < hs2.len() implies rings_apart(#[trigger] hs2[k], r) by {
        if k < hs.len() {
            assert(hs2[k] == hs[k]);
        }
    }
    assert forall|k1: int, k2: int|
        0 <= k1 < hs2.len() && 0 <= k2 < hs2.len() && k1 != k2 implies rings_apart(
        #[trigger] hs2[k1],
        #[trigger] hs2[k2],
    ) by {
        if k1 < hs.len() && k2 < hs.len() {
            assert(hs2[k1] == hs[k1]);
            assert(hs2[k2] == hs[k2]);
        } else if k1 < hs.len() {
            assert(hs2[k1] == hs[k1]);
        } else {
            assert(hs2[k2] == hs[k2]);
        }
    }
}

/// One step of building the hole rings: the arena keeps the vertices of its
/// nodes and the list keeps its rings, so what was listed stays listed, and
/// hole `i`, if it has points, is listed by the ring added last.
proof fn lemma_hole_step<N: Index>(
    holes: Seq<N>,
    dlen: int,
    i: int,
    m0: Seq<Node>,
    m2: Seq<Node>,
    hs: Seq<Seq<usize>>,
    hs2: Seq<Seq<usize>>,
)
    requires
        0 <= i < holes.len(),
        m0.len() <= m2.len(),
        forall|x: int| 0 <= x < m0.len() ==> (#[trigger] m2[x]).index == m0[x].index,
        hs.len() <= hs2.len(),
        forall|j: int| 0 <= j < hs.len() ==> #[trigger] hs2[j] == hs[j],
        forall|kk: int|
            0 <= kk < i && holes[kk].to_nat() < hole_end(holes, kk, dlen) ==> #[trigger] hole_listed(
                m0,
                hs,
                holes[kk].to_nat() as int,
                hole_end(holes, kk, dlen),
            ),
        holes[i].to_nat() < hole_end(holes, i, dlen) ==> hs2.len() > 0 && ring_of_range(
            m2,
            hs2.last(),
            holes[i].to_nat() as int,
            hole_end(holes, i, dlen),
        ),
    ensures
        forall|kk: int|
            0 <= kk < i + 1 && holes[kk].to_nat() < hole_end(holes, kk, dlen) ==> #[trigger] hole_listed(
                m2,
                hs2,
                holes[kk].to_nat() as int,
                hole_end(holes, kk, dlen),
            ),
{
    assert forall|kk: int|
        0 <= kk < i + 1 && holes[kk].to_nat() < hole_end(holes, kk, dlen) implies #[trigger] hole_listed(
        m2,
        hs2,
        holes[kk].to_nat() as int,
        hole_end(holes, kk, dlen),
    ) by {
        if kk < i {
            lemma_listed_grow(m0, m2, hs, hs2, holes[kk].to_nat() as int, hole_end(holes, kk, dlen));
        } else {
            lemma_listed_last(m2, hs2, holes[kk].to_nat() as int, hole_end(holes, kk, dlen));
        }
    }
}

/// A ring that is the last of the list is listed.
proof fn lemma_listed_last(m: Seq<Node>, hs: Seq<Seq<usize>>, lo: int, hi: int)
    requires
        hs.len() > 0,
        ring_of_range(m, hs.last(), lo, hi),
    ensures
        hole_listed(m, hs, lo, hi),
{
    reveal(hole_listed);
    assert(ring_of_range(m, hs[hs.len() - 1], lo, hi));
}

/// A listed ring stays listed when the list is permuted.
proof fn lemma_listed_perm(
    m: Seq<Node>,
    hs: Seq<Seq<usize>>,
    hs2: Seq<Seq<usize>>,
    perm: Seq<int>,
    lo: int,
    hi: int,
)
    requires
        hole_listed(m, hs, lo, hi),
        perm.len() == hs.len(),
        hs2.len() == hs.len(),
        forall|k: int| 0 <= k < perm.len() ==> 0 <= #[trigger] perm[k] < perm.len() && hs2[k] == hs[perm[k]],
        forall|j: int, k: int| 0 <= j < k < perm.len() ==> perm[j] != perm[k],
    ensures
        hole_listed(m, hs2, lo, hi),
{
    reveal(hole_listed);
    let j = choose|j: int| 0 <= j < hs.len() && #[trigger] ring_of_range(m, hs[j], lo, hi);
    crate::integer::holes::lemma_perm_onto(perm);
    assert(perm.contains(j));
    let k = choose|k: int| 0 <= k < perm.len() && #[trigger] perm[k] == j;
    assert(hs2[k] == hs[j]);
    assert(ring_of_range(m, hs2[k], lo, hi));
}

/// Every hole starts at the end of `data`: each hole ring is empty.
pub open spec fn holes_empty<N: Index>(holes: Seq<N>, dlen: int) -> bool {
    forall|i: int| 0 <= i < holes.len() ==> #[trigger] holes[i].to_nat() == dlen
}

/// Three points, the last not repeating the first, and no hole with a point:
/// a single triangle.
pub open spec fn lone_triangle<N: Index>(data: Seq<Point>, holes: Seq<N>) -> bool {
    &&& data.len() == 3
    &&& holes_empty(holes, 3)
    &&& !same_point(data[0], data[2])
}

/// For three points, the ear test's signed area of the corner at the last
/// point is the ring's area with the opposite sign, and that of the corner
/// at the first point, taken in reverse order, is the ring's area.
pub proof fn lemma_three_area(s: Seq<Point>)
    requires
        s.len() == 3,
    ensures
        tri_area(s[1], s[2], s[0]) == -ring_area(s),
        tri_area(s[1], s[0], s[2]) == ring_area(s),
{
    reveal_with_fuel(shoelace_upto, 4);
    let (x0, y0) = (s[0][0] as int, s[0][1] as int);
    let (x1, y1) = (s[1][0] as int, s[1][1] as int);
    let (x2, y2) = (s[2][0] as int, s[2][1] as int);
    assert(shoelace_term(s, 0) == (x2 - x0) * (y0 + y2));
    assert(shoelace_term(s, 1) == (x0 - x1) * (y1 + y0));
    assert(shoelace_term(s, 2) == (x1 - x2) * (y2 + y1));
    assert((y2 - y1) * (x0 - x2) - (x2 - x1) * (y0 - y2) == -((x2 - x0) * (y0 + y2) + (x0 - x1) * (
    y1 + y0) + (x1 - x2) * (y2 + y1))) by (nonlinear_arith);
    assert((y0 - y1) * (x2 - x0) - (x0 - x1) * (y2 - y0) == (x2 - x0) * (y0 + y2) + (x0 - x1) * (y1
        + y0) + (x1 - x2) * (y2 + y1)) by (nonlinear_arith);
}

/// Four points, no hole with a point, and every corner convex (a negative
/// signed area) in the order given: a convex quadrilateral.
pub open spec fn convex_quad<N: Index>(data: Seq<Point>, holes: Seq<N>) -> bool {
    &&& data.len() == 4
    &&& holes_empty(holes, 4)
    &&& tri_area(data[3], data[0], data[1]) < 0
    &&& tri_area(data[0], data[1], data[2]) < 0
    &&& tri_area(data[1], data[2], data[3]) < 0
    &&& tri_area(data[2], data[3], data[0]) < 0
}

/// The diagonal from the first to the third point cuts a ring of four
/// points into two triangles whose signed areas make up the ring's.
pub proof fn lemma_four_area(s: Seq<Point>)
    requires
        s.len() == 4,
    ensures
        ring_area(s) == -(tri_area(s[2], s[3], s[0]) + tri_area(s[0], s[1], s[2])),
{
    reveal_with_fuel(shoelace_upto, 5);
    let (x0, y0) = (s[0][0] as int, s[0][1] as int);
    let (x1, y1) = (s[1][0] as int, s[1][1] as int);
    let (x2, y2) = (s[2][0] as int, s[2][1] as int);
    let (x3, y3) = (s[3][0] as int, s[3][1] as int);
    assert(shoelace_term(s, 0) == (x3 - x0) * (y0 + y3));
    assert(shoelace_term(s, 1) == (x0 - x1) * (y1 + y0));
    assert(shoelace_term(s, 2) == (x1 - x2) * (y2 + y1));
    assert(shoelace_term(s, 3) == (x2 - x3) * (y3 + y2));
    lemma_ring_three_parts(x0, y0, x2, y2, x3, y3);
    lemma_ring_three_parts(x2, y2, x0, y0, x1, y1);
    assert((x3 - x0) * (y0 + y3) + (x0 - x1) * (y1 + y0) + (x1 - x2) * (y2 + y1) + (x2 - x3) * (y3
        + y2) == ((x3 - x0) * (y0 + y3) + (x2 - x3) * (y3 + y2) + (x0 - x2) * (y2 + y0)) + ((x0
        - x1) * (y1 + y0) + (x1 - x2) * (y2 + y1) + (x2 - x0) * (y0 + y2))) by {
        assert((x0 - x2) * (y2 + y0) == -((x2 - x0) * (y0 + y2))) by (nonlinear_arith);
    }
}

/// The shoelace sum of the triangle `(xa, ya) (xb, yb) (xc, yc)`, read from
/// its last corner, is the opposite of its signed area at the corner `c`.
#[verifier::rlimit(30)]
proof fn lemma_ring_three_parts(xa: int, ya: int, xb: int, yb: int, xc: int, yc: int)
    ensures
        (xc - xa) * (ya + yc) + (xb - xc) * (yc + yb) + (xa - xb) * (yb + ya) == -((yc - yb) * (
        xa - xc) - (xc - xb) * (ya - yc)),
{
    assert((xc - xa) * (ya + yc) + (xb - xc) * (yc + yb) + (xa - xb) * (yb + ya) == -((yc - yb) * (
    xa - xc) - (xc - xb) * (ya - yc))) by (nonlinear_arith);
}

/// Integer earcut specialized for `i32` coordinates.
pub struct EarcutI32 {
    data: Vec<Point>,
    nodes: Vec<Node>,
    queue: Vec<(usize, i32)>,
    sort_queue: Vec<(i32, usize)>,
}

impl Default for EarcutI32 {
    fn default() -> (r: Self)
        ensures
            r.is_fresh(),
    {
        Self::new()
    }
}

impl EarcutI32 {
    /// No buffer holds anything yet.
    pub closed spec fn is_fresh(self) -> bool {
        &&& self.data@.len() == 0
        &&& self.nodes@.len() == 0
        &&& self.queue@.len() == 0
        &&& self.sort_queue@.len() == 0
    }

    /// Creates a reusable `i32` earcut instance.
    pub fn new() -> (r: Self)
        ensures
            r.is_fresh(),
    {
        EarcutI32 { data: Vec::new(), nodes: Vec::new(), queue: Vec::new(), sort_queue: Vec::new() }
    }

    /// Empties the node arena, making room for `capacity` nodes.
    fn reset(&mut self, capacity: usize)
        ensures
            final(self).nodes@.len() == 0,
            final(self).data@ == old(self).data@,
            final(self).queue@ == old(self).queue@,
            final(self).sort_queue@ == old(self).sort_queue@,
    {
        self.nodes.clear();
        self.nodes.reserve(capacity);
    }

    /// create a circular doubly linked list from polygon points in the specified winding order
    ///
    /// Appends one node per point of `data[start..end]` (in order when the
    /// ring's signed area has the sign that `clockwise` asks for, else in
    /// reverse), linked into a ring; a last point that repeats the first is
    /// unlinked again. Returns a node of the ring, or `None` for no points.
    #[verifier::rlimit(80)]
    #[verifier::spinoff_prover]
    fn linked_list(&mut self, start: usize, end: usize, clockwise: bool) -> (res: (
        Option<usize>,
        Ghost<Seq<usize>>,
    ))
        requires
            start <= end <= old(self).data@.len() <= 0x8000_0000,
            arena_ok(old(self).nodes@, old(self).data@.len() as int),
            all_z_none(old(self).nodes@),
        ensures
            final(self).data@ == old(self).data@,
            final(self).queue@ == old(self).queue@,
            final(self).sort_queue@ == old(self).sort_queue@,
            arena_ok(final(self).nodes@, old(self).data@.len() as int),
            all_z_none(final(self).nodes@),
            final(self).nodes@.len() == old(self).nodes@.len() + (end - start),
            forall|i: int|
                0 <= i < old(self).nodes@.len() ==> #[trigger] final(self).nodes@[i] == old(
                    self,
                ).nodes@[i],
            forall|i: int|
                old(self).nodes@.len() <= i < final(self).nodes@.len() ==> start <= (
                #[trigger] final(self).nodes@[i]).index < end && final(self).nodes@[i].xy == old(
                    self,
                ).data@[final(self).nodes@[i].index as int] && !final(self).nodes@[i].steiner
                    && final(self).nodes@[i].z == 0,
            res.0 is None <==> start == end,
            forall|j: int|
                0 <= j < end - start ==> #[trigger] final(self).nodes@[old(self).nodes@.len() + j].index
                    == list_vertex(
                    start as int,
                    end as int,
                    clockwise == (ring_area(old(self).data@.subrange(start as int, end as int)) > 0),
                    j,
                ),
            res.0 is Some && res.1@.len() == end - start ==> res.1@ == rotate(
                Seq::new((end - start) as nat, |j: int| (old(self).nodes@.len() + j) as usize),
                end - start - 1,
            ),
            res.0 is Some && res.1@.len() < end - start ==> res.1@ == Seq::new(
                (end - start - 1) as nat,
                |j: int| (old(self).nodes@.len() + j) as usize,
            ) && res.0 == Some(old(self).nodes@.len() as usize),
            res.0 matches Some(s) ==> {
                &&& is_ring(final(self).nodes@, res.1@)
                &&& res.1@[0] == s
                &&& res.1@.len() == ring_count(old(self).data@, start as int, end as int)
                &&& forall|x: usize| res.1@.contains(x) ==> old(self).nodes@.len() <= x
            },
    {
        let ghost base = self.nodes@.len() as int;
        let ghost dlen = self.data@.len() as int;
        if start == end {
            return (None, Ghost(Seq::empty()));
        }
        let area = signed_area(&self.data[start..end]);
        let forward = clockwise == (area > 0);
        let n = end - start;
        let mut last: Option<usize> = None;
        let mut k: usize = 0;
        proof {
            assert(self.nodes.len() == base);
        }
        while k < n
            invariant
                self.data@ == old(self).data@,
                self.queue@ == old(self).queue@,
                self.sort_queue@ == old(self).sort_queue@,
                n == end - start,
                1 <= n,
                start < end <= dlen <= 0x8000_0000,
                dlen == self.data@.len(),
                base == old(self).nodes@.len(),
                0 <= k <= n,
                self.nodes@.len() == base + k,
                forall|i: int| 0 <= i < base ==> #[trigger] self.nodes@[i] == old(self).nodes@[i],
                forall|j: int|
                    0 <= j < k ==> (#[trigger] self.nodes@[base + j]).index == list_vertex(
                        start as int,
                        end as int,
                        forward,
                        j,
                    ) && self.nodes@[base + j].xy == self.data@[list_vertex(
                        start as int,
                        end as int,
                        forward,
                        j,
                    )] && !self.nodes@[base + j].steiner && self.nodes@[base + j].z == 0,
                k == 0 ==> last is None,
                k > 0 ==> last == Some((base + k - 1) as usize) && is_ring(
                    self.nodes@,
                    Seq::new(k as nat, |j: int| (base + j) as usize),
                ),
                arena_ok(self.nodes@, dlen),
                all_z_none(self.nodes@),
            decreases n - k,
        {
            let i = if forward {
                start + k
            } else {
                end - 1 - k
            };
            let xy = self.data[i];
            let ghost m = self.nodes@;
            let ghost ring = Seq::new(k as nat, |j: int| (base + j) as usize);
            proof {
                if k > 0 {
                    lemma_ring_basics(m, ring, k - 1);
                }
            }
            let p = insert_node(&mut self.nodes, i as u32, xy, last);
            proof {
                assert(self.nodes.len() == self.nodes@.len());
                lemma_insert_arena(m, self.nodes@, i as u32, xy, last, dlen);
                let ring2 = Seq::new((k + 1) as nat, |j: int| (base + j) as usize);
                if k > 0 {
                    assert(ring.last() == (base + k - 1) as usize);
                    lemma_ring_insert(m, self.nodes@, ring, i as u32, xy);
                    assert(ring.push(m.len() as usize) =~= ring2);
                } else {
                    lemma_ring_insert_first(m, self.nodes@, i as u32, xy);
                    assert(seq![m.len() as usize] =~= ring2);
                }
                assert forall|j: int| 0 <= j < k + 1 implies (#[trigger] self.nodes@[base + j]).index
                    == list_vertex(start as int, end as int, forward, j) && self.nodes@[base + j].xy
                    == self.data@[list_vertex(start as int, end as int, forward, j)]
                    && !self.nodes@[base + j].steiner && self.nodes@[base + j].z == 0 by {
                    if j < k {
                        assert(m[base + j].index == list_vertex(start as int, end as int, forward, j));
                    }
                }
            }
            last = Some(p);
            k = k + 1;
        }
        let li = last.unwrap();
        let ghost m = self.nodes@;
        proof {
            assert(self.nodes.len() == m.len());
            assert(li == base + n - 1);
            assert forall|i: int| base <= i < m.len() implies start <= (#[trigger] m[i]).index < end
                && m[i].xy == self.data@[m[i].index as int] && !m[i].steiner && m[i].z == 0 by {
                assert(m[base + (i - base)].index == list_vertex(start as int, end as int, forward, i - base));
            }
        }
        let ghost ring = Seq::new(n as nat, |j: int| (base + j) as usize);
        let ghost rl = rotate(ring, n - 1);
        proof {
            lemma_rotate(m, ring, n - 1);
            lemma_ring_basics(m, rl, 0);
            assert(rl[0] == ring[n - 1]);
            assert(rl[crate::integer::nodes::succ(n as int, 0)] == ring[0]) by {
                if n > 1 {
                    assert(rl[1] == ring[0]);
                }
            }
            assert forall|x: usize| rl.contains(x) implies base <= x by {
                assert(rl.to_set().contains(x));
                let j = choose|j: int| 0 <= j < ring.len() && ring[j] == x;
            }
            assert(m[li as int].xy == self.data@[list_vertex(start as int, end as int, forward, n - 1)]);
            assert(m[base].xy == self.data@[list_vertex(start as int, end as int, forward, 0)]);
        }
        let next_i = self.nodes[li].next;
        if equals(self.nodes[li].xy, self.nodes[next_i].xy) {
            let pl = self.nodes[li].link_info();
            proof {
                assert(node_links_in(m[li as int], m.len() as int));
                assert(crate::integer::nodes::z_none(m[li as int]));
            }
            let (_, nx) = remove_node(&mut self.nodes, pl);
            proof {
                crate::integer::cure::lemma_arena_remove(m, self.nodes@, pl, dlen);
                assert forall|i: int| 0 <= i < self.nodes@.len() implies (#[trigger] self.nodes@[i]).index
                    == m[i].index && self.nodes@[i].xy == m[i].xy && self.nodes@[i].steiner
                    == m[i].steiner && self.nodes@[i].z == m[i].z by {}
                assert forall|i: int| 0 <= i < self.nodes@.len() implies crate::integer::nodes::z_none(
                    #[trigger] self.nodes@[i],
                ) by {
                    assert(crate::integer::nodes::z_none(m[i]));
                }
            }
            if n >= 2 {
                proof {
                    lemma_ring_remove(m, self.nodes@, rl, pl);
                    let r2 = rl.drop_first();
                    assert(r2[0] == nx);
                    assert(r2 =~= Seq::new((n - 1) as nat, |j: int| (base + j) as usize));
                    assert(nx == base);
                    assert forall|x: usize| r2.contains(x) implies base <= x by {
                        assert(rl.contains(x));
                    }
                }
                return (Some(nx), Ghost(rl.drop_first()));
            } else {
                proof {
                    lemma_ring_remove_single(m, self.nodes@, rl, pl);
                }
                return (Some(nx), Ghost(rl));
            }
        }
        (Some(li), Ghost(rl))
    }
}

/// No node of ring `a` is on ring `b`.
pub open spec fn rings_apart(a: Seq<usize>, b: Seq<usize>) -> bool {
    forall|x: usize| a.contains(x) ==> !b.contains(x)
}

/// The state after linking the rings of holes `0..i` on top of arena
/// `base`: the outer ring `r` and the hole rings `hs` are rings apart from
/// each other, `queue` lists each with its leftmost node, each hole with
/// points is listed, and a hole of one node holds a Steiner point.
#[verifier::opaque]
spec fn hole_rings_ok<N: Index>(
    nodes: Seq<Node>,
    queue: Seq<(usize, i32)>,
    data: Seq<Point>,
    holes: Seq<N>,
    r: Seq<usize>,
    hs: Seq<Seq<usize>>,
    i: int,
    base: Seq<Node>,
) -> bool {
    let dlen = data.len() as int;
    &&& dlen <= 0x8000_0000
    &&& holes_ok(holes, dlen)
    &&& 0 <= i <= holes.len()
    &&& arena_ok(nodes, dlen)
    &&& all_z_none(nodes)
    &&& is_ring(nodes, r)
    &&& queue.len() == hs.len()
    &&& forall|k: int| 0 <= k < hs.len() ==> is_ring(nodes, #[trigger] hs[k]) && hs[k][0] == queue[k].0
    &&& forall|k: int| 0 <= k < hs.len() ==> rings_apart(#[trigger] hs[k], r)
    &&& forall|k1: int, k2: int|
        0 <= k1 < hs.len() && 0 <= k2 < hs.len() && k1 != k2 ==> rings_apart(
            #[trigger] hs[k1],
            #[trigger] hs[k2],
        )
    &&& holes_empty(holes, dlen) ==> nodes == base && hs.len() == 0
    &&& hs.len() <= i
    &&& forall|k: int| 0 <= k < hs.len() ==> #[trigger] hole_entry(nodes, hs[k], queue[k])
    &&& forall|k: int|
        0 <= k < i && #[trigger] point_hole(data, holes, k) ==> has_steiner_point(
            nodes,
            holes[k].to_nat() as int,
            hole_end(holes, k, dlen),
        )
    &&& forall|k: int|
        0 <= k < i && holes[k].to_nat() < hole_end(holes, k, dlen) ==> #[trigger] hole_listed(
            nodes,
            hs,
            holes[k].to_nat() as int,
            hole_end(holes, k, dlen),
        )
    &&& nodes.len() == base.len() + (if i == 0 {
        0
    } else {
        hole_end(holes, i - 1, dlen) - holes[0].to_nat()
    })
}

/// The parts of `hole_rings_ok`, taken apart.
proof fn lemma_rings_ok_unfold<N: Index>(
    nodes: Seq<Node>,
    queue: Seq<(usize, i32)>,
    data: Seq<Point>,
    holes: Seq<N>,
    r: Seq<usize>,
    hs: Seq<Seq<usize>>,
    i: int,
    base: Seq<Node>,
)
    requires
        hole_rings_ok(nodes, queue, data, holes, r, hs, i, base),
    ensures
        (data.len() as int) <= 0x8000_0000,
        holes_ok(holes, (data.len() as int)),
        0 <= i <= holes.len(),
        arena_ok(nodes, (data.len() as int)),
        all_z_none(nodes),
        is_ring(nodes, r),
        queue.len() == hs.len(),
        forall|k: int| 0 <= k < hs.len() ==> is_ring(nodes, #[trigger] hs[k]) && hs[k][0] == queue[k].0,
        forall|k: int| 0 <= k < hs.len() ==> rings_apart(#[trigger] hs[k], r),
        forall|k1: int, k2: int|
            0 <= k1 < hs.len() && 0 <= k2 < hs.len() && k1 != k2 ==> rings_apart(
                #[trigger] hs[k1],
                #[trigger] hs[k2],
            ),
        holes_empty(holes, (data.len() as int)) ==> nodes == base && hs.len() == 0,
        hs.len() <= i,
        forall|k: int| 0 <= k < hs.len() ==> #[trigger] hole_entry(nodes, hs[k], queue[k]),
        forall|k: int|
            0 <= k < i && #[trigger] point_hole(data, holes, k) ==> has_steiner_point(
                nodes,
                holes[k].to_nat() as int,
                hole_end(holes, k, (data.len() as int)),
            ),
        forall|k: int|
            0 <= k < i && holes[k].to_nat() < hole_end(holes, k, (data.len() as int)) ==> #[trigger] hole_listed(
                nodes,
                hs,
                holes[k].to_nat() as int,
                hole_end(holes, k, (data.len() as int)),
            ),
        nodes.len() == base.len() + (if i == 0 {
            0
        } else {
            hole_end(holes, i - 1, (data.len() as int)) - holes[0].to_nat()
        }),
{
    reveal(hole_rings_ok);
}

/// The parts of `hole_rings_ok`, put together.
proof fn lemma_rings_ok_fold<N: Index>(
    nodes: Seq<Node>,
    queue: Seq<(usize, i32)>,
    data: Seq<Point>,
    holes: Seq<N>,
    r: Seq<usize>,
    hs: Seq<Seq<usize>>,
    i: int,
    base: Seq<Node>,
)
    requires
        (data.len() as int) <= 0x8000_0000,
        holes_ok(holes, (data.len() as int)),
        0 <= i <= holes.len(),
        arena_ok(nodes, (data.len() as int)),
        all_z_none(nodes),
        is_ring(nodes, r),
        queue.len() == hs.len(),
        forall|k: int| 0 <= k < hs.len() ==> is_ring(nodes, #[trigger] hs[k]) && hs[k][0] == queue[k].0,
        forall|k: int| 0 <= k < hs.len() ==> rings_apart(#[trigger] hs[k], r),
        forall|k1: int, k2: int|
            0 <= k1 < hs.len() && 0 <= k2 < hs.len() && k1 != k2 ==> rings_apart(
                #[trigger] hs[k1],
                #[trigger] hs[k2],
            ),
        holes_empty(holes, (data.len() as int)) ==> nodes == base && hs.len() == 0,
        hs.len() <= i,
        forall|k: int| 0 <= k < hs.len() ==> #[trigger] hole_entry(nodes, hs[k], queue[k]),
        forall|k: int|
            0 <= k < i && #[trigger] point_hole(data, holes, k) ==> has_steiner_point(
                nodes,
                holes[k].to_nat() as int,
                hole_end(holes, k, (data.len() as int)),
            ),
        forall|k: int|
            0 <= k < i && holes[k].to_nat() < hole_end(holes, k, (data.len() as int)) ==> #[trigger] hole_listed(
                nodes,
                hs,
                holes[k].to_nat() as int,
                hole_end(holes, k, (data.len() as int)),
            ),
        nodes.len() == base.len() + (if i == 0 {
            0
        } else {
            hole_end(holes, i - 1, (data.len() as int)) - holes[0].to_nat()
        }),
    ensures
        hole_rings_ok(nodes, queue, data, holes, r, hs, i, base),
{
    reveal(hole_rings_ok);
}

impl EarcutI32 {
    /// link every hole into the outer loop, producing a single-ring polygon without holes
    ///
    /// Links the ring of the points `data[start..end]` of one hole, marking
    /// its node as a Steiner point when the ring has a single node.
    #[verifier::rlimit(50)]
    #[verifier::spinoff_prover]
    fn link_hole_ring(&mut self, start: usize, end: usize) -> (res: (Option<usize>, Ghost<Seq<usize>>))
        requires
            start <= end <= old(self).data@.len() <= 0x8000_0000,
            arena_ok(old(self).nodes@, old(self).data@.len() as int),
            all_z_none(old(self).nodes@),
        ensures
            final(self).data@ == old(self).data@,
            final(self).queue@ == old(self).queue@,
            final(self).sort_queue@ == old(self).sort_queue@,
            arena_ok(final(self).nodes@, old(self).data@.len() as int),
            all_z_none(final(self).nodes@),
            final(self).nodes@.len() == old(self).nodes@.len() + (end - start),
            forall|x: int|
                0 <= x < old(self).nodes@.len() ==> #[trigger] final(self).nodes@[x] == old(
                    self,
                ).nodes@[x],
            res.0 is None <==> start == end,
            res.0 matches Some(s) ==> {
                &&& is_ring(final(self).nodes@, res.1@)
                &&& res.1@[0] == s
                &&& forall|y: usize| res.1@.contains(y) ==> old(self).nodes@.len() <= y
                &&& forall|t: int|
                    0 <= t < res.1@.len() ==> start <= #[trigger] final(self).nodes@[res.1@[t] as int].index
                        < end
                &&& res.1@.len() == ring_count(old(self).data@, start as int, end as int)
                &&& res.1@.len() == 1 ==> has_steiner_point(final(self).nodes@, start as int, end as int)
            },
    {
        let ghost dlen = self.data@.len() as int;
        let ghost m0 = self.nodes@;
        let (list, Ghost(hr)) = self.linked_list(start, end, false);
        let ghost m1 = self.nodes@;
        match list {
            Some(list_i) => {
                proof {
                    lemma_ring_basics(m1, hr, 0);
                    assert(hr.contains(hr[0]));
                }
                if self.nodes[list_i].next == list_i {
                    self.nodes[list_i].steiner = true;
                }
                let ghost m2 = self.nodes@;
                proof {
                    assert(forall|j: int| 0 <= j < m2.len() ==> (#[trigger] m2[j]).prev == m1[j].prev
                        && m2[j].next == m1[j].next && m2[j].index == m1[j].index
                        && m2[j].prev_z == m1[j].prev_z && m2[j].next_z == m1[j].next_z);
                    assert forall|j: int| 0 <= j < m2.len() implies node_links_in(#[trigger] m2[j], m2.len() as int)
                        && m2[j].index < dlen && crate::integer::nodes::z_none(m2[j]) by {
                        assert(node_links_in(m1[j], m1.len() as int));
                        assert(m1[j].index < dlen);
                        assert(crate::integer::nodes::z_none(m1[j]));
                    }
                    lemma_ring_frame(m1, m2, hr);
                    assert forall|x: int| 0 <= x < m0.len() implies #[trigger] m2[x] == m0[x] by {
                        assert(m1[x] == m0[x]);
                    }
                    assert forall|t: int| 0 <= t < hr.len() implies start <= #[trigger] m2[hr[t] as int].index
                        < end by {
                        lemma_ring_basics(m1, hr, t);
                        assert(hr.contains(hr[t]));
                    }
                    if hr.len() == 1 {
                        assert(m2[list_i as int].steiner);
                        assert(start <= m2[list_i as int].index < end);
                    }
                }
            },
            None => {},
        }
        (list, Ghost(hr))
    }

    /// Lists hole ring `hr`, which starts at `list_i`, by its first leftmost
    /// node: the ring read from that node joins the hole rings, apart from
    /// them and from `r`, and its entry joins the queue.
    #[verifier::rlimit(50)]
    #[verifier::spinoff_prover]
    fn queue_hole_ring(
        &mut self,
        list_i: usize,
        Ghost(hr): Ghost<Seq<usize>>,
        Ghost(r): Ghost<Seq<usize>>,
        Ghost(hs): Ghost<Seq<Seq<usize>>>,
        Ghost(m0): Ghost<Seq<Node>>,
        Ghost(lo): Ghost<int>,
        Ghost(hi): Ghost<int>,
    ) -> (res: Ghost<Seq<usize>>)
        requires
            is_ring(old(self).nodes@, hr),
            hr[0] == list_i,
            forall|y: usize| hr.contains(y) ==> m0.len() <= y,
            forall|t: int|
                0 <= t < hr.len() ==> lo <= #[trigger] old(self).nodes@[hr[t] as int].index < hi,
            old(self).queue@.len() == hs.len(),
            is_ring(m0, r),
            forall|k: int| 0 <= k < hs.len() ==> is_ring(m0, #[trigger] hs[k]),
            forall|k: int|
                0 <= k < hs.len() ==> is_ring(old(self).nodes@, #[trigger] hs[k]) && hs[k][0]
                    == old(self).queue@[k].0,
            forall|k: int|
                0 <= k < hs.len() ==> #[trigger] hole_entry(old(self).nodes@, hs[k], old(self).queue@[k]),
            forall|k: int| 0 <= k < hs.len() ==> rings_apart(#[trigger] hs[k], r),
            forall|k1: int, k2: int|
                0 <= k1 < hs.len() && 0 <= k2 < hs.len() && k1 != k2 ==> rings_apart(
                    #[trigger] hs[k1],
                    #[trigger] hs[k2],
                ),
        ensures
            final(self).nodes@ == old(self).nodes@,
            final(self).data@ == old(self).data@,
            final(self).sort_queue@ == old(self).sort_queue@,
            final(self).queue@.len() == old(self).queue@.len() + 1,
            ring_of_range(old(self).nodes@, res@, lo, hi),
            ({
                let hs2 = hs.push(res@);
                let q2 = final(self).queue@;
                &&& forall|k: int|
                    0 <= k < hs2.len() ==> is_ring(old(self).nodes@, #[trigger] hs2[k]) && hs2[k][0]
                        == q2[k].0
                &&& forall|k: int| 0 <= k < hs2.len() ==> #[trigger] hole_entry(old(self).nodes@, hs2[k], q2[k])
                &&& forall|k: int| 0 <= k < hs2.len() ==> rings_apart(#[trigger] hs2[k], r)
                &&& forall|k1: int, k2: int|
                    0 <= k1 < hs2.len() && 0 <= k2 < hs2.len() && k1 != k2 ==> rings_apart(
                        #[trigger] hs2[k1],
                        #[trigger] hs2[k2],
                    )
            }),
    {
        let ghost m1 = self.nodes@;
        let ghost q0 = self.queue@;
        let leftmost_i = get_leftmost(&self.nodes, list_i, Ghost(hr));
        let x = self.nodes[leftmost_i].xy[0];
        self.queue.push((leftmost_i, x));
        let ghost kl = choose|kl: int|
            crate::integer::polygon::is_first_leftmost(m1, hr, kl) && leftmost_i == hr[kl];
        proof {
            lemma_rotate(m1, hr, kl);
        }
        let ghost h = rotate(hr, kl);
        proof {
            assert forall|y: usize| h.contains(y) implies m0.len() <= y by {
                assert(h.to_set().contains(y));
                assert(hr.contains(y));
            }
            assert(hole_entry(m1, h, (leftmost_i, x))) by {
                assert forall|j: int| 0 <= j < h.len() implies !crate::integer::polygon::lex_less(
                    #[trigger] xy_of(m1, h[j]),
                    xy_of(m1, h[0]),
                ) by {
                    let jj = if kl + j < hr.len() {
                        kl + j
                    } else {
                        kl + j - hr.len()
                    };
                    assert(h[j] == hr[jj]);
                    assert(!crate::integer::polygon::lex_less(xy_of(m1, hr[jj]), xy_of(m1, hr[kl])));
                }
            }
            assert(self.queue@ == q0.push((leftmost_i, x)));
            lemma_push_ring(m0, m1, r, hs, q0, h, (leftmost_i, x));
            assert forall|t: int| 0 <= t < h.len() implies #[trigger] h[t] < m1.len() && lo <= m1[h[t] as int].index
                < hi by {
                lemma_ring_basics(m1, h, t);
                let jj = if kl + t < hr.len() {
                    kl + t
                } else {
                    kl + t - hr.len()
                };
                assert(h[t] == hr[jj]);
            }
        }
        Ghost(h)
    }

    /// Links the ring of hole `i` and, when it has points, lists it with its
    /// leftmost node, marking a ring of one node as a Steiner point.
    #[verifier::rlimit(100)]
    #[verifier::spinoff_prover]
    fn add_hole_ring<N: Index>(
        &mut self,
        hole_indices: &[N],
        i: usize,
        Ghost(r): Ghost<Seq<usize>>,
        Ghost(hs0): Ghost<Seq<Seq<usize>>>,
        Ghost(base): Ghost<Seq<Node>>,
    ) -> (res: Ghost<Seq<Seq<usize>>>)
        requires
            i < hole_indices@.len(),
            hole_rings_ok(
                old(self).nodes@,
                old(self).queue@,
                old(self).data@,
                hole_indices@,
                r,
                hs0,
                i as int,
                base,
            ),
        ensures
            final(self).data@ == old(self).data@,
            final(self).sort_queue@ == old(self).sort_queue@,
            hole_rings_ok(
                final(self).nodes@,
                final(self).queue@,
                final(self).data@,
                hole_indices@,
                r,
                res@,
                i + 1,
                base,
            ),
    {
        proof {
            lemma_rings_ok_unfold(self.nodes@, self.queue@, self.data@, hole_indices@, r, hs0, i as int, base);
        }
        let ghost dlen = self.data@.len() as int;
        let ghost mut hs = hs0;
        let start = hole_indices[i].into_usize();
        let end = if i + 1 < hole_indices.len() {
            hole_indices[i + 1].into_usize()
        } else {
            self.data.len()
        };
        proof {
            if i + 1 < hole_indices@.len() {
                assert(hole_indices@[i as int].to_nat() <= hole_indices@[i + 1].to_nat());
            }
            if i > 0 {
                assert(hole_end(hole_indices@, i - 1, dlen) == hole_indices@[i as int].to_nat());
            }
        }
        let ghost m0 = self.nodes@;
        let ghost q0 = self.queue@;
        let (list, Ghost(hr)) = self.link_hole_ring(start, end);
        let ghost m1 = self.nodes@;
        proof {
            assert forall|x: int| 0 <= x < m0.len() implies (#[trigger] m1[x]).prev == m0[x].prev && m1[x].next
                == m0[x].next && m1[x].xy == m0[x].xy && m1[x].index == m0[x].index by {
                assert(m1[x] == m0[x]);
            }
            lemma_rings_kept(m0, m1, r, hs, q0);
            assert forall|kk: int| 0 <= kk < i + 1 && #[trigger] point_hole(self.data@, hole_indices@, kk)
                implies has_steiner_point(m1, hole_indices@[kk].to_nat() as int, hole_end(hole_indices@, kk, dlen)) by {
                if kk < i {
                    let x = choose|x: int| 0 <= x < m0.len() && hole_indices@[kk].to_nat() <= m0[x].index < hole_end(hole_indices@, kk, dlen)
                        && #[trigger] m0[x].steiner;
                    assert(m1[x] == m0[x]);
                }
            }
            if holes_empty(hole_indices@, dlen) {
                assert(hole_indices@[i as int].to_nat() == dlen);
                if i + 1 < hole_indices@.len() {
                    assert(hole_indices@[i + 1].to_nat() == dlen);
                }
                assert(m1 =~= m0);
            }
        }
        match list {
            Some(list_i) => {
                let Ghost(h) = self.queue_hole_ring(
                    list_i,
                    Ghost(hr),
                    Ghost(r),
                    Ghost(hs),
                    Ghost(m0),
                    Ghost(start as int),
                    Ghost(end as int),
                );
                proof {
                    let hs_new = hs.push(h);
                    assert(hs_new.last() == h);
                    assert forall|j: int| 0 <= j < hs.len() implies #[trigger] hs_new[j] == hs[j] by {}
                    lemma_hole_step(hole_indices@, dlen, i as int, m0, m1, hs, hs_new);
                    hs = hs_new;
                }
            },
            None => {
                proof {
                    assert forall|j: int| 0 <= j < hs.len() implies #[trigger] hs[j] == hs[j] by {}
                    lemma_hole_step(hole_indices@, dlen, i as int, m0, m1, hs, hs);
                }
            },
        }
        proof {
            let nodes = self.nodes@;
            let queue = self.queue@;
            assert(nodes == m1);
            lemma_rings_ok_fold(nodes, queue, self.data@, hole_indices@, r, hs, i + 1, base);
        }
        Ghost(hs)
    }

    /// Builds a ring for each hole, orders the holes by their leftmost points
    /// and bridges them into the outer ring `r` one by one.
    #[verifier::rlimit(100)]
    #[verifier::spinoff_prover]
    fn eliminate_holes<N: Index>(
        &mut self,
        hole_indices: &[N],
        outer_node_i: usize,
        Ghost(r): Ghost<Seq<usize>>,
    ) -> (res: (
        usize,
        Ghost<Seq<usize>>,
        Ghost<(Seq<(Seq<Node>, Seq<usize>, usize)>, Seq<Seq<usize>>, Seq<(usize, i32)>)>,
    ))
        requires
            old(self).data@.len() <= 0x8000_0000,
            holes_ok(hole_indices@, old(self).data@.len() as int),
            arena_ok(old(self).nodes@, old(self).data@.len() as int),
            all_z_none(old(self).nodes@),
            is_ring(old(self).nodes@, r),
            r[0] == outer_node_i,
        ensures
            final(self).data@ == old(self).data@,
            final(self).sort_queue@ == old(self).sort_queue@,
            arena_ok(final(self).nodes@, old(self).data@.len() as int),
            all_z_none(final(self).nodes@),
            is_ring(final(self).nodes@, res.1@),
            res.1@[0] == res.0,
            holes_empty(hole_indices@, old(self).data@.len() as int) ==> final(self).nodes@
                == old(self).nodes@ && res.0 == outer_node_i && res.1@ == r,
            hole_indices@.len() > 0 ==> old(self).nodes@.len() + (old(self).data@.len()
                - hole_indices@[0].to_nat()) <= final(self).nodes@.len() <= old(self).nodes@.len()
                + (old(self).data@.len() - hole_indices@[0].to_nat()) + 2 * hole_indices@.len(),
            forall|k: int|
                0 <= k < hole_indices@.len() && #[trigger] point_hole(old(self).data@, hole_indices@, k)
                    ==> has_steiner_point(
                    final(self).nodes@,
                    hole_indices@[k].to_nat() as int,
                    hole_end(hole_indices@, k, old(self).data@.len() as int),
                ),
            holes_bridged(old(self).data@, hole_indices@, res.2@),
            res.2@.0[0].1 == r,
            final(self).nodes@ == res.2@.0.last().0,
            res.1@ == res.2@.0.last().1,
    {
        let ghost dlen = self.data@.len() as int;
        self.queue.clear();
        let ghost mut hs: Seq<Seq<usize>> = Seq::empty();
        let mut i: usize = 0;
        proof {
            reveal(hole_rings_ok);
            assert(self.nodes@.len() == old(self).nodes@.len() + 0);
        }
        while i < hole_indices.len()
            invariant
                self.data@ == old(self).data@,
                self.sort_queue@ == old(self).sort_queue@,
                self.data@.len() == dlen,
                0 <= i <= hole_indices@.len(),
                hole_rings_ok(self.nodes@, self.queue@, self.data@, hole_indices@, r, hs, i as int, old(self).nodes@),
            decreases hole_indices@.len() - i,
        {
            let Ghost(hs2) = self.add_hole_ring(hole_indices, i, Ghost(r), Ghost(hs), Ghost(old(self).nodes@));
            proof {
                hs = hs2;
            }
            i = i + 1;
        }
        proof {
            reveal(hole_rings_ok);
        }
        proof {
            assert forall|k: int| 0 <= k < self.queue@.len() implies (#[trigger] self.queue@[k]).0
                < self.nodes@.len() by {
                lemma_ring_basics(self.nodes@, hs[k], 0);
            }
        }
        let ghost q_before = self.queue@;
        let perm = sort_holes(&mut self.queue, &self.nodes);
        let ghost hs2 = Seq::new(hs.len(), |k: int| hs[perm@[k]]);
        let ghost qs = self.queue@;
        let ghost mut st: Seq<(Seq<Node>, Seq<usize>, usize)> = seq![(self.nodes@, r, outer_node_i)];
        proof {
            assert forall|k: int| 0 <= k < hs2.len() implies #[trigger] hole_entry(
                self.nodes@,
                hs2[k],
                qs[k],
            ) by {
                assert(hole_entry(self.nodes@, hs[perm@[k]], q_before[perm@[k]]));
            }
        }
        let mut outer = outer_node_i;
        let ghost mut ro = r;
        let mut k: usize = 0;
        let ghost empty = holes_empty(hole_indices@, dlen);
        let ghost n_before = self.nodes@;
        proof {
            assert forall|kk: int|
                0 <= kk < hole_indices@.len() && hole_indices@[kk].to_nat() < hole_end(hole_indices@, kk, dlen)
                    implies #[trigger] hole_listed(
                n_before,
                hs2,
                hole_indices@[kk].to_nat() as int,
                hole_end(hole_indices@, kk, dlen),
            ) by {
                lemma_listed_perm(
                    n_before,
                    hs,
                    hs2,
                    perm@,
                    hole_indices@[kk].to_nat() as int,
                    hole_end(hole_indices@, kk, dlen),
                );
            }
            if hole_indices@.len() > 0 {
                assert(hole_end(hole_indices@, hole_indices@.len() - 1, dlen) == dlen);
            }
        }
        while k < self.queue.len()
            invariant
                st.len() == k + 1,
                st[k as int].0 == self.nodes@,
                st[k as int].1 == ro,
                st[0].0 == n_before,
                st[0].1 == r,
                self.queue@ == qs,
                forall|kk: int|
                    0 <= kk < hole_indices@.len() && hole_indices@[kk].to_nat() < hole_end(
                        hole_indices@,
                        kk,
                        dlen,
                    ) ==> #[trigger] hole_listed(
                        n_before,
                        hs2,
                        hole_indices@[kk].to_nat() as int,
                        hole_end(hole_indices@, kk, dlen),
                    ),
                forall|j: int| 0 <= j < k ==> #[trigger] bridge_step(st, hs2, j),
                forall|kk: int|
                    0 <= kk < hole_indices@.len() && #[trigger] point_hole(self.data@, hole_indices@, kk)
                        ==> has_steiner_point(self.nodes@, hole_indices@[kk].to_nat() as int, hole_end(hole_indices@, kk, dlen)),
                n_before.len() <= self.nodes@.len() <= n_before.len() + 2 * k,
                hs2.len() <= hole_indices@.len(),
                hole_indices@.len() > 0 ==> n_before.len() == old(self).nodes@.len() + (dlen
                    - hole_indices@[0].to_nat()),
                hole_indices@.len() == 0 ==> hs2.len() == 0,
                empty ==> self.queue@.len() == 0 && self.nodes@ == n_before && outer == outer_node_i
                    && ro == r,
                empty ==> n_before == old(self).nodes@,
                self.data@ == old(self).data@,
                self.sort_queue@ == old(self).sort_queue@,
                self.data@.len() == dlen,
                arena_ok(self.nodes@, dlen),
                all_z_none(self.nodes@),
                is_ring(self.nodes@, ro),
                ro[0] == outer,
                self.queue@.len() == hs2.len(),
                0 <= k <= hs2.len(),
                forall|j: int|
                    k <= j < hs2.len() ==> is_ring(self.nodes@, #[trigger] hs2[j]) && hs2[j][0]
                        == self.queue@[j].0,
                forall|j: int| k <= j < hs2.len() ==> rings_apart(#[trigger] hs2[j], ro),
                forall|j1: int, j2: int|
                    k <= j1 < hs2.len() && k <= j2 < hs2.len() && j1 != j2 ==> rings_apart(
                        #[trigger] hs2[j1],
                        #[trigger] hs2[j2],
                    ),
            decreases hs2.len() - k,
        {
            let q = self.queue[k].0;
            let ghost m0 = self.nodes@;
            let ghost h = hs2[k as int];
            proof {
                assert forall|x: usize| ro.contains(x) implies !h.contains(x) by {
                    assert(rings_apart(h, ro));
                }
            }
            let (o, Ghost(ro2), Ghost(_bridge)) = eliminate_hole(
                &mut self.nodes,
                q,
                outer,
                Ghost(ro),
                Ghost(h),
                Ghost(dlen as nat),
            );
            proof {
                let m1 = self.nodes@;
                assert forall|kk: int|
                    0 <= kk < hole_indices@.len() && #[trigger] point_hole(self.data@, hole_indices@, kk)
                        implies has_steiner_point(m1, hole_indices@[kk].to_nat() as int, hole_end(hole_indices@, kk, dlen)) by {
                    let x = choose|x: int|
                        0 <= x < m0.len() && hole_indices@[kk].to_nat() <= m0[x].index < hole_end(hole_indices@, kk, dlen)
                            && #[trigger] m0[x].steiner;
                    assert(self.nodes.len() == m1.len());
                    let xu = x as usize;
                    assert(xu as int == x);
                    assert(m1[xu as int].index == m0[xu as int].index);
                    assert(m1[x].steiner == m0[x].steiner);
                }
                crate::integer::holes::lemma_concat_contains(ro, h);
                assert forall|j: int| k < j < hs2.len() implies is_ring(m1, #[trigger] hs2[j]) && rings_apart(
                    hs2[j],
                    ro2,
                ) by {
                    let hj = hs2[j];
                    assert(rings_apart(hj, ro));
                    assert(rings_apart(hj, h));
                    assert forall|t: int| 0 <= t < hj.len() implies (#[trigger] m1[hj[t] as int]).prev
                        == m0[hj[t] as int].prev && m1[hj[t] as int].next == m0[hj[t] as int].next by {
                        lemma_ring_basics(m0, hj, t);
                        assert(hj.contains(hj[t]));
                        assert(!(ro + h).contains(hj[t]));
                    }
                    lemma_ring_frame(m0, m1, hj);
                    assert forall|y: usize| hj.contains(y) implies !ro2.contains(y) by {
                        let t = choose|t: int| 0 <= t < hj.len() && hj[t] == y;
                        lemma_ring_basics(m0, hj, t);
                    }
                }
                let st2 = st.push((m1, ro2, _bridge));
                assert(q == hs2[k as int][0]);
                assert forall|j: int| 0 <= j < k + 1 implies #[trigger] bridge_step(st2, hs2, j) by {
                    if j < k {
                        assert(st2[j] == st[j] && st2[j + 1] == st[j + 1]);
                        assert(bridge_step(st, hs2, j));
                    }
                }
                st = st2;
                ro = ro2;
            }
            outer = o;
            k = k + 1;
        }
        (outer, Ghost(ro), Ghost((st, hs2, qs)))
    }
}

/// The z-order hashing parameters (origin and shift, or `NO_HASH`) for the
/// points `data[..outer_len]`, and whether the `i32` fast path is safe for
/// them, with the box that it relies on.
fn hash_params(data: &Vec<Point>, outer_len: usize, has_holes: bool) -> (res: (
    i32,
    i32,
    u32,
    bool,
    Ghost<(int, int, int, int)>,
))
    requires
        1 <= outer_len <= data@.len(),
    ensures
        res.2 != NO_HASH ==> res.2 <= 49,
        res.2 != NO_HASH ==> forall|j: int|
            0 <= j < outer_len ==> in_grid((#[trigger] data@[j])[0], res.0, res.2) && in_grid(
                data@[j][1],
                res.1,
                res.2,
            ),
        res.3 ==> !has_holes && res.2 == NO_HASH,
        res.3 ==> {
            let bx = res.4@;
            &&& bx.2 - bx.0 <= i32::MAX
            &&& bx.3 - bx.1 <= i32::MAX
            &&& bx.0 <= bx.2
            &&& bx.1 <= bx.3
            &&& small_path_spec(bx.2 - bx.0, bx.3 - bx.1)
            &&& forall|j: int|
                0 <= j < outer_len ==> bx.0 <= (#[trigger] data@[j])[0] <= bx.2 && bx.1 <= data@[j][1]
                    <= bx.3
        },
{
    let mut min_x: i32 = 0;
    let mut min_y: i32 = 0;
    let mut shift: u32 = NO_HASH;
    let mut small_path = false;
    let ghost mut bx: (int, int, int, int) = (0, 0, 0, 0);
    let need_bbox = data.len() > 80 || !has_holes;
    if need_bbox {
        let bbox = input_bbox(&data[0..outer_len]);
        let ghost pts = data@.subrange(0, outer_len as int);
        min_x = bbox.min_x;
        min_y = bbox.min_y;
        let range_x = bbox.max_x as i64 - bbox.min_x as i64;
        let range_y = bbox.max_y as i64 - bbox.min_y as i64;
        let range = if range_x > range_y {
            range_x
        } else {
            range_y
        };
        if data.len() > 80 && range > 0 {
            shift = shift_for_z_order(range);
            proof {
                assert forall|j: int| 0 <= j < outer_len implies in_grid(
                    (#[trigger] data@[j])[0],
                    min_x,
                    shift,
                ) && in_grid(data@[j][1], min_y, shift) by {
                    assert(pts[j] == data@[j]);
                    let dx = (data@[j][0] as i64 - min_x as i64) as i64;
                    let dy = (data@[j][1] as i64 - min_y as i64) as i64;
                    assert(dx >> shift <= 0x7FFF);
                    assert(dy >> shift <= 0x7FFF);
                }
            }
        }
        if !has_holes && shift == NO_HASH {
            proof {
                if range_x <= i32::MAX && range_y <= i32::MAX {
                    lemma_mul_bounded(range_x as int, range_y as int, 0x8000_0000);
                }
            }
            small_path = use_small_path(range_x, range_y);
        }
        proof {
            bx = (bbox.min_x as int, bbox.min_y as int, bbox.max_x as int, bbox.max_y as int);
            assert(pts[0][0] <= bbox.max_x);
            assert(pts[0][1] <= bbox.max_y);
            assert forall|j: int| 0 <= j < outer_len implies bx.0 <= (#[trigger] data@[j])[0] <= bx.2
                && bx.1 <= data@[j][1] <= bx.3 by {
                assert(pts[j] == data@[j]);
            }
        }
    }
    (min_x, min_y, shift, small_path, Ghost(bx))
}

impl EarcutI32 {
    /// Performs earcut triangulation on `i32` coordinates.
    ///
    /// Replaces the contents of `triangles_out` with whole triangles, three
    /// vertex indices each, of points of `data`: none when `data` has fewer
    /// than three points or its outer ring collapses to two points or fewer;
    /// a single triangle gives itself back (nothing when its points lie on
    /// one line), and a convex quadrilateral gives two triangles that cover
    /// it. Without a hole that has a point, there are at most `n - 2`
    /// triangles for `n` points.
    ///
    /// Otherwise the triangles come from clipping ears off one ring: the
    /// outer ring as linked from `data` when there are no holes, or the ring
    /// that bridging every hole with points into it gives (`holes_bridged`).
    /// The first pass over that ring cuts, one after the other, corners that
    /// pass the ear test, each cut taking exactly that corner off the ring,
    /// and stops when no corner of what is left passes it (`first_pass`).
    ///
    /// `hole_indices` are the first vertex of each hole ring; they must not
    /// exceed the number of vertices and must be non-decreasing, and there
    /// are at most 2^31 vertices.
    pub fn earcut<N: Index>(&mut self, data: &[Point], hole_indices: &[N], triangles_out: &mut Vec<N>)
        requires
            data@.len() <= 0x8000_0000,
            holes_ok(hole_indices@, data@.len() as int),
        ensures
            triangles_appended(Seq::empty(), final(triangles_out)@, data@.len()),
            data@.len() < 3 || outer_collapsed(data@, hole_indices@) ==> final(triangles_out)@.len()
                == 0,
            lone_triangle(data@, hole_indices@) && ring_area(data@) > 0 ==> final(triangles_out)@
                == seq![N::from_nat(1), N::from_nat(2), N::from_nat(0)],
            lone_triangle(data@, hole_indices@) && ring_area(data@) < 0 ==> final(triangles_out)@
                == seq![N::from_nat(1), N::from_nat(0), N::from_nat(2)],
            lone_triangle(data@, hole_indices@) && ring_area(data@) == 0
                ==> final(triangles_out)@.len() == 0,
            holes_empty(hole_indices@, data@.len() as int) ==> final(triangles_out)@.len() <= 3
                * max_triangles(data@.len() as int),
            convex_quad(data@, hole_indices@) ==> final(triangles_out)@ == seq![
                N::from_nat(2),
                N::from_nat(3),
                N::from_nat(0),
                N::from_nat(0),
                N::from_nat(1),
                N::from_nat(2),
            ],
            data@.len() >= 3 && holes_empty(hole_indices@, data@.len() as int) && !outer_collapsed(
                data@,
                hole_indices@,
            ) ==> exists|o: Seq<Node>, r: Seq<usize>, mx: i32, my: i32, sh: u32|
                #[trigger] outer_ring_nodes(data@, hole_indices@, o, r) && #[trigger] first_pass(
                    o,
                    r,
                    Seq::<N>::empty(),
                    final(triangles_out)@,
                    mx,
                    my,
                    sh,
                ),
            data@.len() >= 3 && !holes_empty(hole_indices@, data@.len() as int) && !outer_collapsed(
                data@,
                hole_indices@,
            ) ==> exists|tr: (Seq<(Seq<Node>, Seq<usize>, usize)>, Seq<Seq<usize>>, Seq<(usize, i32)>), mx: i32, my: i32, sh: u32|
                #[trigger] holes_bridged(data@, hole_indices@, tr) && #[trigger] first_pass(
                    tr.0.last().0,
                    tr.0.last().1,
                    Seq::<N>::empty(),
                    final(triangles_out)@,
                    mx,
                    my,
                    sh,
                ),
    {
        let ghost dlen = data@.len();
        self.data.clear();
        let mut i: usize = 0;
        while i < data.len()
            invariant
                0 <= i <= data@.len(),
                self.data@ == data@.subrange(0, i as int),
            decreases data@.len() - i,
        {
            self.data.push(data[i]);
            i = i + 1;
        }
        proof {
            assert(self.data@ =~= data@);
        }
        triangles_out.clear();
        proof {
            lemma_triangles_refl(triangles_out@, dlen);
        }
        if self.data.len() < 3 {
            return;
        }
        self.triangulate(hole_indices, triangles_out);
    }

    /// Triangulates the points already copied into `self.data` (three or
    /// more) into the empty `triangles_out`.
    #[verifier::rlimit(100)]
    #[verifier::spinoff_prover]
    fn triangulate<N: Index>(&mut self, hole_indices: &[N], triangles_out: &mut Vec<N>)
        requires
            3 <= old(self).data@.len() <= 0x8000_0000,
            old(triangles_out)@.len() == 0,
            holes_ok(hole_indices@, old(self).data@.len() as int),
        ensures
            triangles_appended(Seq::empty(), final(triangles_out)@, old(self).data@.len()),
            outer_collapsed(old(self).data@, hole_indices@) ==> final(triangles_out)@.len() == 0,
            lone_triangle(old(self).data@, hole_indices@) && ring_area(old(self).data@) > 0
                ==> final(triangles_out)@ == seq![N::from_nat(1), N::from_nat(2), N::from_nat(0)],
            lone_triangle(old(self).data@, hole_indices@) && ring_area(old(self).data@) < 0
                ==> final(triangles_out)@ == seq![N::from_nat(1), N::from_nat(0), N::from_nat(2)],
            lone_triangle(old(self).data@, hole_indices@) && ring_area(old(self).data@) == 0
                ==> final(triangles_out)@.len() == 0,
            holes_empty(hole_indices@, old(self).data@.len() as int) ==> final(triangles_out)@.len()
                <= 3 * (old(self).data@.len() - 2),
            convex_quad(old(self).data@, hole_indices@) ==> final(triangles_out)@ == seq![
                N::from_nat(2),
                N::from_nat(3),
                N::from_nat(0),
                N::from_nat(0),
                N::from_nat(1),
                N::from_nat(2),
            ],
            holes_empty(hole_indices@, old(self).data@.len() as int) && !outer_collapsed(
                old(self).data@,
                hole_indices@,
            ) ==> exists|o: Seq<Node>, r: Seq<usize>, mx: i32, my: i32, sh: u32|
                #[trigger] outer_ring_nodes(old(self).data@, hole_indices@, o, r) && #[trigger] first_pass(
                    o,
                    r,
                    Seq::<N>::empty(),
                    final(triangles_out)@,
                    mx,
                    my,
                    sh,
                ),
            !holes_empty(hole_indices@, old(self).data@.len() as int) && !outer_collapsed(
                old(self).data@,
                hole_indices@,
            ) ==> exists|tr: (Seq<(Seq<Node>, Seq<usize>, usize)>, Seq<Seq<usize>>, Seq<(usize, i32)>), mx: i32, my: i32, sh: u32|
                #[trigger] holes_bridged(old(self).data@, hole_indices@, tr) && #[trigger] first_pass(
                    tr.0.last().0,
                    tr.0.last().1,
                    Seq::<N>::empty(),
                    final(triangles_out)@,
                    mx,
                    my,
                    sh,
                ),
    {
        let ghost dlen = self.data@.len();
        proof {
            lemma_triangles_refl(triangles_out@, dlen);
        }
        let capacity = match self.data.len().checked_mul(3) {
            Some(c) => c,
            None => usize::MAX,
        };
        triangles_out.reserve(capacity);
        self.reset(self.data.len() / 2 * 3);
        let has_holes = hole_indices.len() > 0;
        let outer_len = if has_holes {
            hole_indices[0].into_usize()
        } else {
            self.data.len()
        };
        let ghost d0 = self.data@;
        let (outer, Ghost(r)) = self.linked_list(0, outer_len, true);
        let ghost nl = self.nodes@;
        let outer_node_i = match outer {
            Some(o) => o,
            None => {
                proof {
                    assert(triangles_out@ =~= Seq::<N>::empty());
                }
                return;
            },
        };
        proof {
            lemma_ring_basics(self.nodes@, r, 0);
            if r.len() == 2 {
                lemma_ring_basics(self.nodes@, r, 1);
            }
            if r.len() >= 3 {
                lemma_ring_basics(self.nodes@, r, 1);
                lemma_ring_basics(self.nodes@, r, r.len() - 1);
            }
        }
        if self.nodes[outer_node_i].next == self.nodes[outer_node_i].prev {
            proof {
                assert(triangles_out@ =~= Seq::<N>::empty());
            }
            return;
        }
        let mut outer_node_i = outer_node_i;
        let ghost mut ro = r;
        let ghost mut tr: (Seq<(Seq<Node>, Seq<usize>, usize)>, Seq<Seq<usize>>, Seq<(usize, i32)>) = (Seq::empty(), Seq::empty(), Seq::empty());
        if has_holes {
            let (o, Ghost(r2), Ghost(steps)) = self.eliminate_holes(
                hole_indices,
                outer_node_i,
                Ghost(ro),
            );
            outer_node_i = o;
            proof {
                ro = r2;
                tr = steps;
            }
        }
        let ghost t0 = triangles_out@;
        let ghost n0 = self.nodes@;
        proof {
            if lone_triangle(self.data@, hole_indices@) && ring_area(self.data@) != 0 {
                let d = self.data@;
                assert(d.subrange(0, 3) =~= d);
                lemma_three_area(d);
                assert(r =~= seq![2usize, 0usize, 1usize]) by {
                    let ring = Seq::new(3nat, |j: int| (0 + j) as usize);
                    assert(r == rotate(ring, 2));
                }
                assert(n0[0].index == list_vertex(0, 3, ring_area(d) > 0, 0));
                assert(n0[1].index == list_vertex(0, 3, ring_area(d) > 0, 1));
                assert(n0[2].index == list_vertex(0, 3, ring_area(d) > 0, 2));
                assert(n0[0].xy == d[n0[0].index as int]);
                assert(n0[1].xy == d[n0[1].index as int]);
                assert(n0[2].xy == d[n0[2].index as int]);
                assert(convex_three(n0, ro));
            }
            if lone_triangle(self.data@, hole_indices@) && ring_area(self.data@) == 0 {
                let d = self.data@;
                assert(d.subrange(0, 3) =~= d);
                lemma_three_area(d);
                assert(r =~= seq![2usize, 0usize, 1usize]) by {
                    let ring = Seq::new(3nat, |j: int| (0 + j) as usize);
                    assert(r == rotate(ring, 2));
                }
                assert(n0[0].index == list_vertex(0, 3, false, 0));
                assert(n0[1].index == list_vertex(0, 3, false, 1));
                assert(n0[2].index == list_vertex(0, 3, false, 2));
                assert(n0[0].xy == d[n0[0].index as int]);
                assert(n0[1].xy == d[n0[1].index as int]);
                assert(n0[2].xy == d[n0[2].index as int]);
                assert(!n0[0].steiner && !n0[1].steiner && !n0[2].steiner);
                assert(flat_three(n0, ro));
            }
            if convex_quad(self.data@, hole_indices@) {
                let d = self.data@;
                assert(d.subrange(0, 4) =~= d);
                lemma_four_area(d);
                if same_point(d[0], d[3]) {
                    let (ax, ay, bx, by, cx, cy) = (d[3][0] as int, d[3][1] as int, d[0][0] as int, d[0][1] as int, d[1][0] as int, d[1][1] as int);
                    assert((by - ay) * (cx - bx) - (bx - ax) * (cy - by) == 0) by (nonlinear_arith)
                        requires
                            ax == bx,
                            ay == by,
                    ;
                }
                assert(r =~= seq![3usize, 0usize, 1usize, 2usize]) by {
                    let ring = Seq::new(4nat, |j: int| (0 + j) as usize);
                    assert(r == rotate(ring, 3));
                }
                assert(n0[0].index == 0 && n0[1].index == 1 && n0[2].index == 2 && n0[3].index == 3)
                    by {
                    assert(n0[0].index == list_vertex(0, 4, true, 0));
                    assert(n0[1].index == list_vertex(0, 4, true, 1));
                    assert(n0[2].index == list_vertex(0, 4, true, 2));
                    assert(n0[3].index == list_vertex(0, 4, true, 3));
                }
                assert(n0[0].xy == d[0] && n0[1].xy == d[1] && n0[2].xy == d[2] && n0[3].xy == d[3]);
                assert forall|k: int| 0 <= k < 4 implies #[trigger] crate::integer::clip::corner_area(
                    n0,
                    ro,
                    k,
                ) < 0 by {}
                assert(convex_four(n0, ro));
            }
        }
        self.triangulate_ring(outer_node_i, outer_len, has_holes, triangles_out, Ghost(ro));
        proof {
            if holes_empty(hole_indices@, dlen as int) && !outer_collapsed(d0, hole_indices@) {
                let e = outer_end(hole_indices@, d0.len() as int);
                let fwd = ring_area(d0.subrange(0, e)) > 0;
                let cnt = r.len() as int;
                assert(outer_len == e);
                assert(n0 == nl && ro == r);
                assert forall|k: int| 0 <= k < cnt implies {
                    let x = #[trigger] n0[r[k] as int];
                    let j = if cnt == e {
                        if k == 0 {
                            cnt - 1
                        } else {
                            k - 1
                        }
                    } else {
                        k
                    };
                    &&& x.index == list_vertex(0, e, fwd, j)
                    &&& x.xy == d0[x.index as int]
                    &&& x.z == 0
                    &&& !x.steiner
                } by {
                    let j = if cnt == e {
                        if k == 0 {
                            cnt - 1
                        } else {
                            k - 1
                        }
                    } else {
                        k
                    };
                    if cnt == e {
                        let ring = Seq::new(e as nat, |i: int| (0 + i) as usize);
                        assert(r == rotate(ring, e - 1));
                        assert(r[k] == ring[j]);
                    } else {
                        assert(r == Seq::new((e - 1) as nat, |i: int| (0 + i) as usize));
                    }
                    assert(r[k] == j);
                    assert(nl[0 + j].index == list_vertex(0, e, fwd, j));
                }
                assert(outer_ring_nodes(d0, hole_indices@, n0, ro));
                let (mx, my, sh) = choose|mx: i32, my: i32, sh: u32|
                    #[trigger] first_pass(n0, ro, t0, triangles_out@, mx, my, sh);
                assert(t0 =~= Seq::<N>::empty());
                assert(first_pass(n0, ro, Seq::<N>::empty(), triangles_out@, mx, my, sh));
            }
            if !holes_empty(hole_indices@, dlen as int) && !outer_collapsed(d0, hole_indices@) {
                assert(has_holes);
                let (mx, my, sh) = choose|mx: i32, my: i32, sh: u32|
                    #[trigger] first_pass(n0, ro, t0, triangles_out@, mx, my, sh);
                assert(t0 =~= Seq::<N>::empty());
                assert(holes_bridged(d0, hole_indices@, tr));
                assert(first_pass(tr.0.last().0, tr.0.last().1, Seq::<N>::empty(), triangles_out@, mx, my, sh));
            }
            assert(t0 =~= Seq::<N>::empty());
            lemma_triangles_refl(t0, dlen);
            lemma_triangles_trans(Seq::empty(), t0, triangles_out@, dlen);
        }
    }

    /// Triangulates ring `ro` of the arena, choosing the hashing mode and the
    /// `i32` fast path from the bounding box of the outer ring's points
    /// `data[..outer_len]`.
    #[verifier::rlimit(80)]
    #[verifier::spinoff_prover]
    fn triangulate_ring<N: Index>(
        &mut self,
        outer_node_i: usize,
        outer_len: usize,
        has_holes: bool,
        triangles_out: &mut Vec<N>,
        Ghost(ro): Ghost<Seq<usize>>,
    )
        requires
            1 <= outer_len <= old(self).data@.len() <= 0x8000_0000,
            arena_ok(old(self).nodes@, old(self).data@.len() as int),
            all_z_none(old(self).nodes@),
            is_ring(old(self).nodes@, ro),
            ro[0] == outer_node_i,
            !has_holes ==> forall|j: int|
                0 <= j < old(self).nodes@.len() ==> (#[trigger] old(self).nodes@[j]).index < outer_len
                    && old(self).nodes@[j].xy == old(self).data@[old(self).nodes@[j].index as int],
        ensures
            triangles_appended(old(triangles_out)@, final(triangles_out)@, old(self).data@.len()),
            convex_three(old(self).nodes@, ro) ==> final(triangles_out)@ == old(triangles_out)@
                + ear_triangle::<N>(old(self).nodes@, ro),
            flat_three(old(self).nodes@, ro) ==> final(triangles_out)@ == old(triangles_out)@,
            convex_four(old(self).nodes@, ro) ==> final(triangles_out)@ == old(triangles_out)@
                + four_triangles::<N>(old(self).nodes@, ro),
            exists|mx: i32, my: i32, sh: u32|
                #[trigger] first_pass(
                    old(self).nodes@,
                    ro,
                    old(triangles_out)@,
                    final(triangles_out)@,
                    mx,
                    my,
                    sh,
                ),
            final(triangles_out)@.len() <= old(triangles_out)@.len() + 3 * max_triangles(
                ro.len() as int,
            ),
    {
        let ghost dlen = self.data@.len();
        let (min_x, min_y, shift, small_path, Ghost(bx)) = hash_params(
            &self.data,
            outer_len,
            has_holes,
        );
        proof {
            if small_path && shift == NO_HASH {
                assert forall|j: int| 0 <= j < self.nodes@.len() implies bx.0 <= (
                #[trigger] self.nodes@[j]).xy[0] <= bx.2 && bx.1 <= self.nodes@[j].xy[1] <= bx.3 by {
                    let v = self.nodes@[j].index as int;
                    assert(0 <= v < outer_len);
                }
            }
        }
        let ghost no_list: Seq<usize> = Seq::empty();
        let ghost o_ring = self.nodes@;
        let ghost t_ring = triangles_out@;
        proof {
            lemma_ring_basics(self.nodes@, ro, 0);
            lemma_all_z_none_covers(self.nodes@, ro);
            assert(z_mode_ok(self.nodes@, ro, no_list, shift, Pass::P0));
        }
        earcut_linked(
            &mut self.nodes,
            outer_node_i,
            triangles_out,
            min_x,
            min_y,
            shift,
            small_path,
            &mut self.sort_queue,
            Pass::P0,
            Ghost(ro),
            Ghost(no_list),
            Ghost(dlen),
            Ghost(bx),
        );
        proof {
            assert(first_pass(o_ring, ro, t_ring, triangles_out@, min_x, min_y, shift));
        }
    }
}

} // verus!
