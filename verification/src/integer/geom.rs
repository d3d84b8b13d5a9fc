//! Exact geometric predicates on `i32` points.
//!
//! Every product of coordinate differences is formed in `i128`, so the
//! predicates are exact for the whole `i32` range.
use vstd::prelude::*;
use vstd::std_specs::bits::u64_leading_zeros;

verus! {

/// A point of the input, `[x, y]`.
pub type Point = [i32; 2];

/// Twice the signed area of the triangle `p q r`, with the sign convention of
/// the triangulator (negative for a convex corner of a correctly wound ring).
pub open spec fn tri_area(p: Point, q: Point, r: Point) -> int {
    (q[1] - p[1]) * (r[0] - q[0]) - (q[0] - p[0]) * (r[1] - q[1])
}

/// Whether `p` lies inside or on the triangle `a b c`.
pub open spec fn in_triangle(a: Point, b: Point, c: Point, p: Point) -> bool {
    &&& (c[0] - p[0]) * (a[1] - p[1]) >= (a[0] - p[0]) * (c[1] - p[1])
    &&& (a[0] - p[0]) * (b[1] - p[1]) >= (b[0] - p[0]) * (a[1] - p[1])
    &&& (b[0] - p[0]) * (c[1] - p[1]) >= (c[0] - p[0]) * (b[1] - p[1])
}

/// Whether `p` lies inside or on the triangle `a b c` and is not `a` itself.
pub open spec fn in_triangle_except_first(a: Point, b: Point, c: Point, p: Point) -> bool {
    !(a[0] == p[0] && a[1] == p[1]) && in_triangle(a, b, c, p)
}

pub open spec fn same_point(p: Point, q: Point) -> bool {
    p[0] == q[0] && p[1] == q[1]
}

pub open spec fn min_int(a: int, b: int) -> int {
    if a <= b {
        a
    } else {
        b
    }
}

pub open spec fn max_int(a: int, b: int) -> int {
    if a >= b {
        a
    } else {
        b
    }
}

/// For collinear `p q r`: whether `q` lies within the bounding box of `p r`.
pub open spec fn on_segment_spec(p: Point, q: Point, r: Point) -> bool {
    &&& q[0] <= max_int(p[0] as int, r[0] as int)
    &&& q[1] <= max_int(p[1] as int, r[1] as int)
    &&& q[0] >= min_int(p[0] as int, r[0] as int)
    &&& q[1] >= min_int(p[1] as int, r[1] as int)
}

pub open spec fn sign_of(v: int) -> int {
    if v > 0 {
        1
    } else if v < 0 {
        -1
    } else {
        0
    }
}

/// Whether the closed segments `p1 q1` and `p2 q2` intersect.
pub open spec fn segments_intersect(p1: Point, q1: Point, p2: Point, q2: Point) -> bool {
    let o1 = sign_of(tri_area(p1, q1, p2));
    let o2 = sign_of(tri_area(p1, q1, q2));
    let o3 = sign_of(tri_area(p2, q2, p1));
    let o4 = sign_of(tri_area(p2, q2, q1));
    ||| (o1 != o2 && o3 != o4)
    ||| (o3 == 0 && on_segment_spec(p2, p1, q2))
    ||| (o4 == 0 && on_segment_spec(p2, q1, q2))
    ||| (o2 == 0 && on_segment_spec(p1, q2, q1))
    ||| (o1 == 0 && on_segment_spec(p1, p2, q1))
}

pub open spec fn fits_i32(v: int) -> bool {
    i32::MIN <= v <= i32::MAX
}

pub open spec fn fits_i64(v: int) -> bool {
    i64::MIN <= v <= i64::MAX
}

/// `|a * b| <= bound * bound` when `|a|, |b| <= bound`.
pub proof fn lemma_mul_bounded(a: int, b: int, bound: int)
    requires
        bound >= 0,
        -bound <= a <= bound,
        -bound <= b <= bound,
    ensures
        -(bound * bound) <= a * b <= bound * bound,
{
    assert(-(bound * bound) <= a * b <= bound * bound) by (nonlinear_arith)
        requires
            bound >= 0,
            -bound <= a <= bound,
            -bound <= b <= bound,
    ;
}

/// Products of two differences of `i32` values stay within `2^64`.
pub proof fn lemma_diff_product(a: int, b: int)
    requires
        -0x1_0000_0000 <= a <= 0x1_0000_0000,
        -0x1_0000_0000 <= b <= 0x1_0000_0000,
    ensures
        -0x1_0000_0000_0000_0000 <= a * b <= 0x1_0000_0000_0000_0000,
{
    lemma_mul_bounded(a, b, 0x1_0000_0000);
}

/// `(a - b) * (c - d)` on `i32` values, formed exactly.
pub fn diff_product(a: i32, b: i32, c: i32, d: i32) -> (r: i128)
    ensures
        r == (a - b) * (c - d),
        -0x1_0000_0000_0000_0000 <= r <= 0x1_0000_0000_0000_0000,
{
    let u = a as i128 - b as i128;
    let v = c as i128 - d as i128;
    proof {
        lemma_diff_product(u as int, v as int);
    }
    u * v
}

/// signed area of a triangle (twice the geometric area)
pub fn area(p: Point, q: Point, r: Point) -> (res: i128)
    ensures
        res == tri_area(p, q, r),
{
    let lhs = diff_product(q[1], p[1], r[0], q[0]);
    let rhs = diff_product(q[0], p[0], r[1], q[1]);
    lhs - rhs
}

/// check if two points are equal
pub fn equals(p1: Point, p2: Point) -> (r: bool)
    ensures
        r == same_point(p1, p2),
{
    p1[0] == p2[0] && p1[1] == p2[1]
}

pub fn min_i32(a: i32, b: i32) -> (r: i32)
    ensures
        r == min_int(a as int, b as int),
{
    if a <= b {
        a
    } else {
        b
    }
}

pub fn max_i32(a: i32, b: i32) -> (r: i32)
    ensures
        r == max_int(a as int, b as int),
{
    if a >= b {
        a
    } else {
        b
    }
}

/// for collinear points p, q, r, check if point q lies on segment pr
pub fn on_segment(p: Point, q: Point, r: Point) -> (res: bool)
    ensures
        res == on_segment_spec(p, q, r),
{
    (q[0] <= max_i32(p[0], r[0]) && q[1] <= max_i32(p[1], r[1])) && (q[0] >= min_i32(p[0], r[0])
        && q[1] >= min_i32(p[1], r[1]))
}

/// The sign of `v`: `1`, `-1` or `0`.
pub fn wide_sign(v: i128) -> (r: i32)
    ensures
        r == sign_of(v as int),
{
    if v > 0 {
        1
    } else if v < 0 {
        -1
    } else {
        0
    }
}

/// check if two segments intersect
pub fn intersects(p1: Point, q1: Point, p2: Point, q2: Point) -> (r: bool)
    ensures
        r == segments_intersect(p1, q1, p2, q2),
{
    let o1 = wide_sign(area(p1, q1, p2));
    let o2 = wide_sign(area(p1, q1, q2));
    let o3 = wide_sign(area(p2, q2, p1));
    let o4 = wide_sign(area(p2, q2, q1));
    (o1 != o2 && o3 != o4) || (o3 == 0 && on_segment(p2, p1, q2)) || (o4 == 0 && on_segment(
        p2,
        q1,
        q2,
    )) || (o2 == 0 && on_segment(p1, q2, q1)) || (o1 == 0 && on_segment(p1, p2, q1))
}

pub fn point_in_triangle(a: Point, b: Point, c: Point, p: Point) -> (r: bool)
    ensures
        r == in_triangle(a, b, c, p),
{
    (diff_product(c[0], p[0], a[1], p[1]) >= diff_product(a[0], p[0], c[1], p[1]))
        && (diff_product(a[0], p[0], b[1], p[1]) >= diff_product(b[0], p[0], a[1], p[1]))
        && (diff_product(b[0], p[0], c[1], p[1]) >= diff_product(c[0], p[0], b[1], p[1]))
}

pub fn point_in_triangle_except_first(a: Point, b: Point, c: Point, p: Point) -> (r: bool)
    ensures
        r == in_triangle_except_first(a, b, c, p),
{
    !(a[0] == p[0] && a[1] == p[1]) && point_in_triangle(a, b, c, p)
}

/// Whether every difference and product that `small_area_non_negative` forms
/// on `p q r` fits in `i32`.
pub open spec fn small_area_fits(p: Point, q: Point, r: Point) -> bool {
    &&& fits_i32(q[1] - p[1])
    &&& fits_i32(r[0] - q[0])
    &&& fits_i32(q[0] - p[0])
    &&& fits_i32(r[1] - q[1])
    &&& fits_i32((q[1] - p[1]) * (r[0] - q[0]))
    &&& fits_i32((q[0] - p[0]) * (r[1] - q[1]))
}

/// `area(p, q, r) >= 0` computed in `i32`, for points whose differences are small.
pub fn small_area_non_negative(p: Point, q: Point, r: Point) -> (res: bool)
    requires
        small_area_fits(p, q, r),
    ensures
        res == (tri_area(p, q, r) >= 0),
{
    let lhs = (q[1] - p[1]) * (r[0] - q[0]);
    let rhs = (q[0] - p[0]) * (r[1] - q[1]);
    lhs >= rhs
}

/// Whether every difference and product that `small_point_in_triangle` forms
/// on `a b c p` fits in `i32`.
pub open spec fn small_triangle_fits(a: Point, b: Point, c: Point, p: Point) -> bool {
    &&& fits_i32(a[0] - p[0])
    &&& fits_i32(a[1] - p[1])
    &&& fits_i32(b[0] - p[0])
    &&& fits_i32(b[1] - p[1])
    &&& fits_i32(c[0] - p[0])
    &&& fits_i32(c[1] - p[1])
    &&& fits_i32((c[0] - p[0]) * (a[1] - p[1]))
    &&& fits_i32((a[0] - p[0]) * (c[1] - p[1]))
    &&& fits_i32((a[0] - p[0]) * (b[1] - p[1]))
    &&& fits_i32((b[0] - p[0]) * (a[1] - p[1]))
    &&& fits_i32((b[0] - p[0]) * (c[1] - p[1]))
    &&& fits_i32((c[0] - p[0]) * (b[1] - p[1]))
}

/// `point_in_triangle` computed in `i32`, for points whose differences are small.
pub fn small_point_in_triangle(a: Point, b: Point, c: Point, p: Point) -> (r: bool)
    requires
        small_triangle_fits(a, b, c, p),
    ensures
        r == in_triangle(a, b, c, p),
{
    ((c[0] - p[0]) * (a[1] - p[1]) >= (a[0] - p[0]) * (c[1] - p[1])) && ((a[0] - p[0]) * (b[1]
        - p[1]) >= (b[0] - p[0]) * (a[1] - p[1])) && ((b[0] - p[0]) * (c[1] - p[1]) >= (c[0]
        - p[0]) * (b[1] - p[1]))
}

/// Whether the `i32` fast path may be used for a bounding box of the given
/// extents: both extents fit in `i32`, so every coordinate difference does,
/// and either one of them is zero or their product fits in `i32`, so every
/// product of a difference in x with a difference in y does.
pub open spec fn small_path_spec(range_x: int, range_y: int) -> bool {
    &&& range_x <= i32::MAX
    &&& range_y <= i32::MAX
    &&& (range_x == 0 || range_y == 0 || range_x * range_y <= i32::MAX)
}

pub fn use_small_path(range_x: i64, range_y: i64) -> (r: bool)
    requires
        (range_x != 0 && range_y != 0 && range_x <= i32::MAX && range_y <= i32::MAX) ==> fits_i64(
            range_x * range_y,
        ),
    ensures
        r == small_path_spec(range_x as int, range_y as int),
{
    range_x <= i32::MAX as i64 && range_y <= i32::MAX as i64 && (range_x == 0 || range_y == 0
        || range_x * range_y <= i32::MAX as i64)
}

/// The number of bits that a non-negative value needs, as `64 - leading zeros`.
pub open spec fn bits_used(range: i64) -> int {
    64 - u64_leading_zeros(range as u64)
}

/// The right shift that brings a coordinate range into 15 bits.
pub open spec fn z_shift_spec(range: i64) -> int {
    if bits_used(range) < 15 {
        0
    } else {
        bits_used(range) - 15
    }
}

pub fn shift_for_z_order(range: i64) -> (r: u32)
    ensures
        r == z_shift_spec(range),
        r <= 49,
        forall|d: i64| 0 <= d <= range ==> #[trigger] (d >> r) <= 0x7FFF,
{
    proof {
        vstd::std_specs::bits::axiom_u64_leading_zeros(range as u64);
        lemma_shift_fits(range);
    }
    let used = 64 - (range as u64).leading_zeros();
    used.saturating_sub(15)
}

/// Spreads the low 16 bits of `v` to the even bit positions.
pub open spec fn spread_bits(v: u32) -> u32 {
    let v1 = (v | (v << 8u32)) & 0x00FF00FFu32;
    let v2 = (v1 | (v1 << 4u32)) & 0x0F0F0F0Fu32;
    let v3 = (v2 | (v2 << 2u32)) & 0x33333333u32;
    (v3 | (v3 << 1u32)) & 0x55555555u32
}

/// The 15-bit grid cell of coordinate `c` relative to `origin` after shifting.
pub open spec fn grid_cell(c: i32, origin: i32, shift: u32) -> u32 {
    (((c as i64 - origin as i64) as i64 >> shift) as u32) & 0x7FFFu32
}

/// Morton code of the grid cell of `xy`.
pub open spec fn z_order_spec(xy: Point, min_x: i32, min_y: i32, shift: u32) -> i32 {
    (spread_bits(grid_cell(xy[0], min_x, shift)) | (spread_bits(grid_cell(xy[1], min_y, shift))
        << 1u32)) as i32
}

fn spread(v: u32) -> (r: u32)
    ensures
        r == spread_bits(v),
{
    let mut x = v;
    x = (x | (x << 8)) & 0x00FF00FF;
    x = (x | (x << 4)) & 0x0F0F0F0F;
    x = (x | (x << 2)) & 0x33333333;
    x = (x | (x << 1)) & 0x55555555;
    x
}

/// z-order of a point given coords, origin, and a right-shift to normalize
/// coordinates into the 15-bit z-order range.
pub fn z_order(xy: Point, min_x: i32, min_y: i32, shift: u32) -> (r: i32)
    requires
        shift < 64,
    ensures
        r == z_order_spec(xy, min_x, min_y, shift),
{
    let x = (((xy[0] as i64 - min_x as i64) >> shift) as u32) & 0x7FFF;
    let y = (((xy[1] as i64 - min_y as i64) >> shift) as u32) & 0x7FFF;
    let x = spread(x);
    let y = spread(y);
    (x | (y << 1)) as i32
}

/// Spreading bits keeps the order of 15-bit values.
pub proof fn lemma_spread_mono(a: u32, b: u32)
    requires
        a <= b <= 0x7FFF,
    ensures
        spread_bits(a) <= spread_bits(b),
        spread_bits(b) <= 0x1555_5555,
{
    assert(spread_bits(a) <= spread_bits(b) && spread_bits(b) <= 0x1555_5555) by (bit_vector)
        requires
            a <= b && b <= 0x7FFF,
    ;
}

/// Interleaving the spread bits of two 15-bit cells adds them up, without overlap.
pub proof fn lemma_morton_value(x: u32, y: u32)
    requires
        x <= 0x7FFF,
        y <= 0x7FFF,
    ensures
        (spread_bits(x) | (spread_bits(y) << 1u32)) == spread_bits(x) + 2 * spread_bits(y),
        spread_bits(x) + 2 * spread_bits(y) <= 0x3FFF_FFFF,
{
    assert((spread_bits(x) | (spread_bits(y) << 1u32)) == spread_bits(x) + 2 * spread_bits(y)
        && spread_bits(x) + 2 * spread_bits(y) <= 0x3FFF_FFFF) by (bit_vector)
        requires
            x <= 0x7FFF && y <= 0x7FFF,
    ;
}

/// Coordinate `c` lies at or past `origin`, and its offset, shifted, fits 15 bits.
pub open spec fn in_grid(c: i32, origin: i32, shift: u32) -> bool {
    &&& origin <= c
    &&& ((c as i64 - origin as i64) as i64 >> shift) <= 0x7FFF
}

/// Grid cells keep the order of the coordinates within the grid.
pub proof fn lemma_grid_mono(c1: i32, c2: i32, origin: i32, shift: u32)
    requires
        shift < 64,
        origin <= c1 <= c2,
        in_grid(c2, origin, shift),
    ensures
        in_grid(c1, origin, shift),
        grid_cell(c1, origin, shift) <= grid_cell(c2, origin, shift) <= 0x7FFF,
        grid_cell(c2, origin, shift) == ((c2 as i64 - origin as i64) as i64 >> shift),
{
    let d1: i64 = (c1 as i64 - origin as i64) as i64;
    let d2: i64 = (c2 as i64 - origin as i64) as i64;
    assert(0 <= d1 <= d2);
    assert((d1 >> shift) <= (d2 >> shift) && ((d1 >> shift) as u32 & 0x7FFFu32) == (d1 >> shift)
        && ((d2 >> shift) as u32 & 0x7FFFu32) == (d2 >> shift)) by (bit_vector)
        requires
            0 <= d1 && d1 <= d2 && (d2 >> shift) <= 0x7FFF && shift < 64,
    ;
}

/// Morton codes of grid points keep the order of both coordinates.
pub proof fn lemma_z_order_mono(p: Point, q: Point, min_x: i32, min_y: i32, shift: u32)
    requires
        shift < 64,
        min_x <= p[0] <= q[0],
        min_y <= p[1] <= q[1],
        in_grid(q[0], min_x, shift),
        in_grid(q[1], min_y, shift),
    ensures
        z_order_spec(p, min_x, min_y, shift) <= z_order_spec(q, min_x, min_y, shift),
{
    lemma_grid_mono(p[0], q[0], min_x, shift);
    lemma_grid_mono(p[1], q[1], min_y, shift);
    let px = grid_cell(p[0], min_x, shift);
    let py = grid_cell(p[1], min_y, shift);
    let qx = grid_cell(q[0], min_x, shift);
    let qy = grid_cell(q[1], min_y, shift);
    lemma_grid_mono(p[0], p[0], min_x, shift);
    lemma_grid_mono(p[1], p[1], min_y, shift);
    lemma_spread_mono(px, qx);
    lemma_spread_mono(py, qy);
    lemma_morton_value(px, py);
    lemma_morton_value(qx, qy);
}

/// Shifting by `z_shift_spec(range)` brings every offset up to `range` into 15 bits.
pub proof fn lemma_shift_fits(range: i64)
    ensures
        forall|d: i64| 0 <= d <= range ==> #[trigger] (d >> z_shift_spec(range)) <= 0x7FFF,
{
    if range >= 0 {
        vstd::std_specs::bits::axiom_u64_leading_zeros(range as u64);
        let u = range as u64;
        let lz = u64_leading_zeros(u);
        let used = 64 - lz;
        let w = (64 - lz) as u64;
        assert(u >> w == 0);
        let s = z_shift_spec(range) as u64;
        assert(s + 15 >= w);
        assert(u >> (s + 15) == 0) by (bit_vector)
            requires
                u >> w == 0,
                s + 15 >= w,
                w <= 64,
                s <= 64,
        ;
        assert forall|d: i64| 0 <= d <= range implies #[trigger] (d >> z_shift_spec(range)) <= 0x7FFF by {
            let ss = z_shift_spec(range) as u32;
            assert(d >> ss <= 0x7FFF) by (bit_vector)
                requires
                    0 <= d,
                    d <= range,
                    (range as u64) >> (ss as u64 + 15) == 0,
                    ss < 64,
            ;
        }
    }
}

/// The signed area of a triangle keeps its value when the corners are
/// rotated, changes sign when two of them trade places, and is zero when two
/// corners are the same point.
pub proof fn lemma_tri_area_symmetry(a: Point, b: Point, c: Point)
    ensures
        tri_area(a, b, c) == tri_area(b, c, a),
        tri_area(a, c, b) == -tri_area(a, b, c),
        tri_area(a, b, a) == 0,
{
    let (ax, ay, bx, by, cx, cy) = (a[0] as int, a[1] as int, b[0] as int, b[1] as int, c[0] as int, c[1] as int);
    assert((by - ay) * (cx - bx) - (bx - ax) * (cy - by) == (cy - by) * (ax - cx) - (cx - bx) * (ay
        - cy)) by (nonlinear_arith);
    assert((cy - ay) * (bx - cx) - (cx - ax) * (by - cy) == -((by - ay) * (cx - bx) - (bx - ax) * (
    cy - by))) by (nonlinear_arith);
    assert((by - ay) * (ax - bx) - (bx - ax) * (ay - by) == 0) by (nonlinear_arith);
}

/// The point-in-triangle test does not depend on which corner the triangle
/// is read from: rotating its corners gives the same answer.
pub proof fn lemma_in_triangle_rotate(a: Point, b: Point, c: Point, p: Point)
    ensures
        in_triangle(a, b, c, p) == in_triangle(b, c, a, p),
        in_triangle(a, b, c, p) == in_triangle(c, a, b, p),
{
}

/// A triangle wound the way the test expects (signed area not positive)
/// contains its own corners, and a point that it contains lies within the
/// triangle's bounding box.
pub proof fn lemma_in_triangle_closed(a: Point, b: Point, c: Point, p: Point)
    ensures
        tri_area(a, b, c) <= 0 ==> in_triangle(a, b, c, a) && in_triangle(a, b, c, b) && in_triangle(
            a,
            b,
            c,
            c,
        ),
        in_triangle(a, b, c, p) && tri_area(a, b, c) < 0 ==> min_int(min_int(a[0] as int, b[0] as int), c[0] as int)
            <= p[0] <= max_int(max_int(a[0] as int, b[0] as int), c[0] as int),
        in_triangle(a, b, c, p) && tri_area(a, b, c) < 0 ==> min_int(min_int(a[1] as int, b[1] as int), c[1] as int)
            <= p[1] <= max_int(max_int(a[1] as int, b[1] as int), c[1] as int),
{
    let (ax, ay, bx, by, cx, cy) = (a[0] as int, a[1] as int, b[0] as int, b[1] as int, c[0] as int, c[1] as int);
    assert((bx - ax) * (cy - ay) - (cx - ax) * (by - ay) == -((by - ay) * (cx - bx) - (bx - ax) * (cy
        - by))) by (nonlinear_arith);
    assert((cx - bx) * (ay - by) - (ax - bx) * (cy - by) == -((by - ay) * (cx - bx) - (bx - ax) * (cy
        - by))) by (nonlinear_arith);
    assert((ax - cx) * (by - cy) - (bx - cx) * (ay - cy) == -((by - ay) * (cx - bx) - (bx - ax) * (cy
        - by))) by (nonlinear_arith);
    if in_triangle(a, b, c, p) && tri_area(a, b, c) < 0 {
        lemma_in_triangle_x_bounds(a, b, c, p);
        lemma_in_triangle_y_bounds(a, b, c, p);
    }
}

/// The x-coordinate part of `lemma_in_triangle_closed`: the three signed
/// areas that `p` forms with the edges sum to the triangle's, so `p` cannot
/// lie strictly left or right of all three corners.
proof fn lemma_in_triangle_x_bounds(a: Point, b: Point, c: Point, p: Point)
    requires
        in_triangle(a, b, c, p),
        tri_area(a, b, c) < 0,
    ensures
        min_int(min_int(a[0] as int, b[0] as int), c[0] as int) <= p[0] <= max_int(
            max_int(a[0] as int, b[0] as int),
            c[0] as int,
        ),
{
    let (ax, ay, bx, by, cx, cy, px, py) = (
        a[0] as int,
        a[1] as int,
        b[0] as int,
        b[1] as int,
        c[0] as int,
        c[1] as int,
        p[0] as int,
        p[1] as int,
    );
    let u = (cx - px) * (ay - py) - (ax - px) * (cy - py);
    let v = (ax - px) * (by - py) - (bx - px) * (ay - py);
    let w = (bx - px) * (cy - py) - (cx - px) * (by - py);
    assert(u + v + w == -((by - ay) * (cx - bx) - (bx - ax) * (cy - by))) by (nonlinear_arith)
        requires
            u == (cx - px) * (ay - py) - (ax - px) * (cy - py),
            v == (ax - px) * (by - py) - (bx - px) * (ay - py),
            w == (bx - px) * (cy - py) - (cx - px) * (by - py),
    ;
    if px < ax && px < bx && px < cx {
        assert(false) by (nonlinear_arith)
            requires
                px < ax && px < bx && px < cx,
                u >= 0,
                v >= 0,
                w >= 0,
                u == (cx - px) * (ay - py) - (ax - px) * (cy - py),
                v == (ax - px) * (by - py) - (bx - px) * (ay - py),
                w == (bx - px) * (cy - py) - (cx - px) * (by - py),
                u + v + w > 0,
        ;
    }
    if px > ax && px > bx && px > cx {
        assert(false) by (nonlinear_arith)
            requires
                px > ax && px > bx && px > cx,
                u >= 0,
                v >= 0,
                w >= 0,
                u == (cx - px) * (ay - py) - (ax - px) * (cy - py),
                v == (ax - px) * (by - py) - (bx - px) * (ay - py),
                w == (bx - px) * (cy - py) - (cx - px) * (by - py),
                u + v + w > 0,
        ;
    }
}

/// The y-coordinate part of `lemma_in_triangle_closed`, alike.
proof fn lemma_in_triangle_y_bounds(a: Point, b: Point, c: Point, p: Point)
    requires
        in_triangle(a, b, c, p),
        tri_area(a, b, c) < 0,
    ensures
        min_int(min_int(a[1] as int, b[1] as int), c[1] as int) <= p[1] <= max_int(
            max_int(a[1] as int, b[1] as int),
            c[1] as int,
        ),
{
    let (ax, ay, bx, by, cx, cy, px, py) = (
        a[0] as int,
        a[1] as int,
        b[0] as int,
        b[1] as int,
        c[0] as int,
        c[1] as int,
        p[0] as int,
        p[1] as int,
    );
    let u = (cx - px) * (ay - py) - (ax - px) * (cy - py);
    let v = (ax - px) * (by - py) - (bx - px) * (ay - py);
    let w = (bx - px) * (cy - py) - (cx - px) * (by - py);
    assert(u + v + w == -((by - ay) * (cx - bx) - (bx - ax) * (cy - by))) by (nonlinear_arith)
        requires
            u == (cx - px) * (ay - py) - (ax - px) * (cy - py),
            v == (ax - px) * (by - py) - (bx - px) * (ay - py),
            w == (bx - px) * (cy - py) - (cx - px) * (by - py),
    ;
    if py < ay && py < by && py < cy {
        assert(false) by (nonlinear_arith)
            requires
                py < ay && py < by && py < cy,
                u >= 0,
                v >= 0,
                w >= 0,
                u == (cx - px) * (ay - py) - (ax - px) * (cy - py),
                v == (ax - px) * (by - py) - (bx - px) * (ay - py),
                w == (bx - px) * (cy - py) - (cx - px) * (by - py),
                u + v + w > 0,
        ;
    }
    if py > ay && py > by && py > cy {
        assert(false) by (nonlinear_arith)
            requires
                py > ay && py > by && py > cy,
                u >= 0,
                v >= 0,
                w >= 0,
                u == (cx - px) * (ay - py) - (ax - px) * (cy - py),
                v == (ax - px) * (by - py) - (bx - px) * (ay - py),
                w == (bx - px) * (cy - py) - (cx - px) * (by - py),
                u + v + w > 0,
        ;
    }
}

} // verus!
