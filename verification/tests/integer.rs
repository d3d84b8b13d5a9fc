use earcut::integer::geom::{
    area, point_in_triangle, point_in_triangle_except_first, shift_for_z_order,
    small_area_non_negative, small_point_in_triangle, use_small_path, wide_sign, z_order,
};
use earcut::integer::{deviation, input_bbox, signed_area, EarcutI32, InputBbox};

#[test]
fn deviation_is_zero_for_too_short_input() {
    let data = [[0, 0], [10, 0]];

    assert_eq!(deviation(&data, &[] as &[u32], &[] as &[u32]), 0);
}

#[test]
fn clears_output_for_too_short_input() {
    let data = [[0, 0], [10, 0]];
    let mut earcut = EarcutI32::default();
    let mut triangles = vec![99u32, 100, 101];

    earcut.earcut(&data, &[] as &[u32], &mut triangles);

    assert!(triangles.is_empty());
}

#[test]
fn supports_u16_indices() {
    let data = [[0, 0], [10, 0], [10, 10], [0, 10]];
    let mut earcut = EarcutI32::new();
    let mut triangles = Vec::<u16>::new();

    earcut.earcut(&data, &[] as &[u16], &mut triangles);

    assert_eq!(triangles.len(), 6);
    assert_eq!(deviation(&data, &[] as &[u16], &triangles), 0);
}

#[test]
fn supports_usize_indices() {
    let data = [[0, 0], [10, 0], [10, 10], [0, 10]];
    let mut earcut = EarcutI32::new();
    let mut triangles = Vec::<usize>::new();

    earcut.earcut(&data, &[] as &[usize], &mut triangles);

    assert_eq!(triangles.len(), 6);
    assert_eq!(deviation(&data, &[] as &[usize], &triangles), 0);
}

#[test]
fn returns_empty_for_collapsed_outer_ring() {
    let data = [[0, 0], [1, 0], [1, 0]];
    let mut earcut = EarcutI32::new();
    let mut triangles = Vec::<u32>::new();

    earcut.earcut(&data, &[] as &[u32], &mut triangles);

    assert!(triangles.is_empty());
}

#[test]
fn ignores_empty_hole_ring() {
    let data = [[0, 0], [10, 0], [0, 10]];
    let mut earcut = EarcutI32::new();
    let mut triangles = Vec::<u32>::new();

    earcut.earcut(&data, &[3u32], &mut triangles);

    assert_eq!(triangles.len(), 3);
    assert_eq!(deviation(&data, &[] as &[u32], &triangles), 0);
}

fn triangulate(data: &[[i32; 2]], holes: &[u32]) -> Vec<u32> {
    let mut earcut = EarcutI32::new();
    let mut triangles = Vec::new();
    earcut.earcut(data, holes, &mut triangles);
    triangles
}

fn assert_whole_triangles(data: &[[i32; 2]], triangles: &[u32]) {
    assert_eq!(triangles.len() % 3, 0);
    for &i in triangles {
        assert!((i as usize) < data.len());
    }
}

/// A comb: a bottom edge and forty teeth along the top, 83 vertices.
fn comb() -> Vec<[i32; 2]> {
    let mut data = vec![[0, 0], [400, 0]];
    let mut i = 40;
    loop {
        data.push([i * 10, 100]);
        if i == 0 {
            break;
        }
        data.push([i * 10 - 5, 30]);
        i -= 1;
    }
    data
}

fn circle(n: usize, radius: f64) -> Vec<[i32; 2]> {
    (0..n)
        .map(|k| {
            let t = (k as f64) * std::f64::consts::TAU / (n as f64);
            [(radius * t.cos()).round() as i32, (radius * t.sin()).round() as i32]
        })
        .collect()
}

#[test]
fn single_triangle_gives_one_triangle() {
    let counter_clockwise = [[0, 0], [10, 0], [0, 10]];
    assert_eq!(triangulate(&counter_clockwise, &[]), vec![1, 2, 0]);
    let clockwise = [[0, 0], [0, 10], [10, 0]];
    assert_eq!(triangulate(&clockwise, &[]), vec![1, 0, 2]);
}

#[test]
fn clockwise_square_is_triangulated() {
    let data = [[0, 0], [0, 10], [10, 10], [10, 0]];
    let triangles = triangulate(&data, &[]);
    assert_eq!(triangles.len(), 6);
    assert_eq!(deviation(&data, &[] as &[u32], &triangles), 0);
}

#[test]
fn square_with_square_hole() {
    let data = [[0, 0], [10, 0], [10, 10], [0, 10], [2, 2], [2, 8], [8, 8], [8, 2]];
    let triangles = triangulate(&data, &[4]);
    assert_whole_triangles(&data, &triangles);
    assert_eq!(triangles.len(), 8 * 3);
    assert_eq!(deviation(&data, &[4u32], &triangles), 0);
}

#[test]
fn square_with_two_holes() {
    let data = [
        [0, 0],
        [30, 0],
        [30, 10],
        [0, 10],
        [2, 3],
        [2, 8],
        [8, 8],
        [8, 3],
        [20, 2],
        [20, 8],
        [26, 8],
        [26, 2],
    ];
    let triangles = triangulate(&data, &[4, 8]);
    assert_whole_triangles(&data, &triangles);
    assert_eq!(triangles.len(), 14 * 3);
    assert_eq!(deviation(&data, &[4u32, 8], &triangles), 0);
}

#[test]
fn single_point_hole_is_kept() {
    let data = [[0, 0], [10, 0], [10, 10], [0, 10], [5, 5]];
    let triangles = triangulate(&data, &[4]);
    assert_whole_triangles(&data, &triangles);
    assert_eq!(triangles.len(), 4 * 3);
    assert!(triangles.contains(&4));
    assert_eq!(deviation(&data, &[4u32], &triangles), 0);
}

#[test]
fn concave_comb_with_z_order_hashing() {
    let data = comb();
    assert!(data.len() > 80);
    let triangles = triangulate(&data, &[]);
    assert_whole_triangles(&data, &triangles);
    assert_eq!(triangles.len(), (data.len() - 2) * 3);
    assert_eq!(deviation(&data, &[] as &[u32], &triangles), 0);
}

#[test]
fn circle_with_hole_and_hashing() {
    let mut data = circle(100, 10_000.0);
    let hole_start = data.len() as u32;
    data.extend_from_slice(&[[-100, -100], [-100, 100], [100, 100], [100, -100]]);
    let triangles = triangulate(&data, &[hole_start]);
    assert_whole_triangles(&data, &triangles);
    assert_eq!(triangles.len(), 104 * 3);
    assert_eq!(deviation(&data, &[hole_start], &triangles), 0);
}

#[test]
fn extreme_coordinates_are_exact() {
    let data = [[i32::MIN, i32::MIN], [i32::MAX, i32::MIN], [i32::MAX, i32::MAX], [i32::MIN, i32::MAX]];
    let triangles = triangulate(&data, &[]);
    assert_eq!(triangles.len(), 6);
    assert_eq!(deviation(&data, &[] as &[u32], &triangles), 0);
}

#[test]
fn collinear_points_give_no_triangles() {
    let data = [[0, 0], [1, 0], [2, 0], [3, 0]];
    let triangles = triangulate(&data, &[]);
    assert!(triangles.is_empty());
}

#[test]
fn hole_starting_within_three_points_collapses_outer_ring() {
    let data = [[0, 0], [10, 0], [10, 10], [0, 10]];
    let triangles = triangulate(&data, &[2]);
    assert!(triangles.is_empty());
}

#[test]
fn repeated_last_point_is_dropped() {
    let data = [[0, 0], [10, 0], [10, 10], [0, 10], [0, 0]];
    let triangles = triangulate(&data, &[]);
    assert_eq!(triangles.len(), 6);
    assert!(!triangles.contains(&4));
    assert_eq!(deviation(&data, &[] as &[u32], &triangles), 0);
}

#[test]
fn instance_reuse_gives_same_result() {
    let square = [[0, 0], [10, 0], [10, 10], [0, 10]];
    let comb = comb();
    let mut earcut = EarcutI32::new();
    let mut first = Vec::<u32>::new();
    earcut.earcut(&square, &[], &mut first);
    let mut other = Vec::<u32>::new();
    earcut.earcut(&comb, &[], &mut other);
    let mut again = vec![7u32; 9];
    earcut.earcut(&square, &[], &mut again);
    assert_eq!(first, again);
    assert_eq!(other, triangulate(&comb, &[]));
}

#[test]
fn deviation_counts_missing_area() {
    let data = [[0, 0], [10, 0], [10, 10], [0, 10]];
    assert_eq!(deviation(&data, &[] as &[u32], &[0u32, 1, 2]), 100);
    assert_eq!(deviation(&data, &[] as &[u32], &[] as &[u32]), 200);
    assert_eq!(deviation(&data, &[] as &[u32], &[0u32, 1, 2, 0, 2, 3, 1]), 0);
}

#[test]
fn deviation_subtracts_holes() {
    let data = [[0, 0], [10, 0], [10, 10], [0, 10], [2, 2], [2, 8], [8, 8], [8, 2]];
    assert_eq!(deviation(&data, &[4u32], &[] as &[u32]), 200 - 72);
    assert_eq!(deviation(&data, &[4u32, 6], &[] as &[u32]), 200);
}

#[test]
fn signed_area_of_rings() {
    assert_eq!(signed_area(&[[0, 0], [10, 0], [10, 10], [0, 10]]), 200);
    assert_eq!(signed_area(&[[0, 0], [0, 10], [10, 10], [10, 0]]), -200);
    assert_eq!(signed_area(&[[3, 4]]), 0);
}

#[test]
fn bounding_box_of_points() {
    let b = input_bbox(&[[3, -1], [-2, 5], [7, 0]]);
    assert_eq!((b.min_x, b.min_y, b.max_x, b.max_y), (-2, -1, 7, 5));
    let mut c = InputBbox::new([1, 1]);
    c.update([0, 4]);
    assert_eq!((c.min_x, c.min_y, c.max_x, c.max_y), (0, 1, 1, 4));
}

#[test]
fn small_path_choice() {
    assert!(!use_small_path(0, 1 << 40));
    assert!(use_small_path(0, (1 << 31) - 1));
    assert!(!use_small_path((1 << 32) - 1, 0));
    assert!(use_small_path(1000, 1000));
    assert!(!use_small_path(100_000, 100_000));
    assert!(!use_small_path(1 << 32, 1));
}

#[test]
fn z_order_shift_and_codes() {
    assert_eq!(shift_for_z_order(1), 0);
    assert_eq!(shift_for_z_order(0x7FFF), 0);
    assert_eq!(shift_for_z_order(0x8000), 1);
    assert_eq!(shift_for_z_order(i64::MAX), 48);
    assert_eq!(z_order([0, 0], 0, 0, 0), 0);
    assert_eq!(z_order([1, 0], 0, 0, 0), 1);
    assert_eq!(z_order([0, 1], 0, 0, 0), 2);
    assert_eq!(z_order([3, 3], 0, 0, 0), 15);
    assert_eq!(z_order([12, 10], 10, 10, 1), 1);
}

#[test]
fn signs_and_areas() {
    assert_eq!(wide_sign(-5), -1);
    assert_eq!(wide_sign(0), 0);
    assert_eq!(wide_sign(1 << 100), 1);
    assert_eq!(area([0, 0], [10, 0], [0, 10]), -100);
    assert_eq!(area([0, 0], [0, 10], [10, 0]), 100);
    assert_eq!(area([i32::MIN, i32::MIN], [i32::MAX, i32::MIN], [i32::MIN, i32::MAX]), -((1i128 << 32) - 1) * ((1i128 << 32) - 1));
    assert!(!small_area_non_negative([0, 0], [10, 0], [0, 10]));
    assert!(small_area_non_negative([0, 0], [0, 10], [10, 0]));
}

#[test]
fn points_in_triangles() {
    let (a, b, c) = ([0, 0], [10, 0], [0, 10]);
    assert!(point_in_triangle(a, b, c, [1, 1]));
    assert!(point_in_triangle(a, b, c, [0, 0]));
    assert!(!point_in_triangle(a, b, c, [10, 10]));
    assert!(!point_in_triangle_except_first(a, b, c, [0, 0]));
    assert!(point_in_triangle_except_first(a, b, c, [0, 5]));
    assert!(small_point_in_triangle(a, b, c, [2, 2]));
    assert!(!small_point_in_triangle(a, b, c, [-1, 2]));
}

/// A polygon whose bottom corner `(500, -100)` is not an ear: a slit from the
/// top reaches into its triangle. Only the z-order search finds the slit's
/// tip, as the ring neighbours of the corner lie far away in z-order.
fn slit_polygon() -> Vec<[i32; 2]> {
    let mut data = vec![[0, 0], [500, -100], [1000, 0]];
    for k in 1..40 {
        data.push([1000, 25 * k]);
    }
    data.extend_from_slice(&[[1000, 1000], [510, 1000], [500, -50], [490, 1000], [0, 1000]]);
    for k in (1..40).rev() {
        data.push([0, 25 * k]);
    }
    data.push([-200, -600]);
    data
}

#[test]
fn z_order_search_finds_distant_blocker() {
    let data = slit_polygon();
    assert!(data.len() > 80);
    let triangles = triangulate(&data, &[]);
    assert_whole_triangles(&data, &triangles);
    assert!(!triangles.is_empty());
    assert_eq!(deviation(&data, &[] as &[u32], &triangles), 0);
}

#[test]
fn hole_touching_outer_vertex() {
    let data = [[0, 0], [10, 0], [10, 10], [0, 10], [0, 0], [3, 6], [6, 3]];
    let triangles = triangulate(&data, &[4]);
    assert_whole_triangles(&data, &triangles);
    assert!(!triangles.is_empty());
    assert_eq!(deviation(&data, &[4u32], &triangles), 0);
}

#[test]
fn collinear_hole_leaves_square_covered() {
    let data = [[0, 0], [10, 0], [10, 10], [0, 10], [2, 2], [4, 4], [6, 6]];
    let triangles = triangulate(&data, &[4]);
    assert_whole_triangles(&data, &triangles);
    assert!(!triangles.is_empty());
    assert_eq!(deviation(&data, &[4u32], &triangles), 0);
}

#[test]
fn segment_hole_pointing_at_corner() {
    let data = [[0, 0], [10, 0], [10, 10], [0, 10], [4, 4], [2, 2]];
    let triangles = triangulate(&data, &[4]);
    assert_whole_triangles(&data, &triangles);
    assert_eq!(deviation(&data, &[4u32], &triangles), 0);
}

#[test]
fn fast_path_decides_as_exact_path() {
    let small = [
        [0, 0],
        [40, 0],
        [40, 30],
        [30, 30],
        [30, 10],
        [20, 25],
        [10, 10],
        [10, 30],
        [0, 30],
    ];
    let large: Vec<[i32; 2]> = small.iter().map(|&[x, y]| [x * 100_000, y * 100_000]).collect();
    assert!(use_small_path(40, 30));
    assert!(!use_small_path(40 * 100_000, 30 * 100_000));
    let a = triangulate(&small, &[]);
    let b = triangulate(&large, &[]);
    assert_eq!(a.len(), (small.len() - 2) * 3);
    assert_eq!(a, b);
    assert_eq!(deviation(&small, &[] as &[u32], &a), 0);
}

#[test]
fn collinear_extreme_triangle_gives_no_triangles() {
    let data = [[i32::MIN, 0], [i32::MAX, 0], [0, 0]];
    let triangles = triangulate(&data, &[]);
    assert!(triangles.is_empty());
}

#[test]
fn repeated_empty_holes_leave_triangle() {
    let data = [[0, 0], [10, 0], [0, 10]];
    let triangles = triangulate(&data, &[3, 3]);
    assert_eq!(triangles, vec![1, 2, 0]);
}

#[test]
fn signed_area_rotates_and_reverses() {
    let ring = [[0, 0], [7, 1], [9, 6], [2, 8], [-1, 3]];
    let mut rotated = ring[1..].to_vec();
    rotated.push(ring[0]);
    let mut reversed = ring.to_vec();
    reversed.reverse();
    let a = signed_area(&ring);
    assert_eq!(a, 107);
    assert_eq!(signed_area(&rotated), a);
    assert_eq!(signed_area(&reversed), -a);
}

#[test]
fn deviation_ignores_triangle_order() {
    let data = [[0, 0], [10, 0], [10, 10], [0, 10]];
    let tris = [0u32, 1, 2, 0, 2, 3];
    let swapped = [0u32, 2, 3, 0, 1, 2];
    let rotated_corners = [1u32, 2, 0, 0, 3, 2];
    assert_eq!(deviation(&data, &[] as &[u32], &tris), 0);
    assert_eq!(deviation(&data, &[] as &[u32], &swapped), 0);
    assert_eq!(deviation(&data, &[] as &[u32], &rotated_corners), 0);
    assert_eq!(deviation(&data, &[] as &[u32], &[0u32, 2, 3]), deviation(&data, &[] as &[u32], &[3u32, 0, 2]));
}

#[test]
fn point_in_triangle_rotation_and_corners() {
    let (a, b, c) = ([0, 0], [10, 0], [0, 10]);
    for p in [[1, 1], [0, 0], [5, 5], [6, 6], [-1, 2], [0, 10]] {
        let r = point_in_triangle(a, b, c, p);
        assert_eq!(point_in_triangle(b, c, a, p), r);
        assert_eq!(point_in_triangle(c, a, b, p), r);
    }
    assert!(point_in_triangle(a, b, c, a));
    assert!(point_in_triangle(a, b, c, b));
    assert!(point_in_triangle(a, b, c, c));
}
