use meshopt::vertex::cache::analyze_vertex_cache;
use meshopt::vertex::cache::checked_analyze_vertex_cache;
use meshopt::vertex::cache::optimize_vertex_cache;
use meshopt::vertex::cache::optimize_vertex_cache_fifo;
use meshopt::vertex::cache::optimize_vertex_cache_strip;
use meshopt::vertex::cache::VertexCacheStatistics;

/// The triangles of a grid of `width` times `height` squares.
fn grid(width: u32, height: u32) -> Vec<u32> {
    let mut indices = Vec::new();
    for y in 0..height {
        for x in 0..width {
            let a = y * (width + 1) + x;
            let c = a + width + 1;
            indices.extend_from_slice(&[a, a + 1, c, c, a + 1, c + 1]);
        }
    }
    indices
}

/// `count` pseudo-random vertices below `vertex_count`.
fn scattered(count: usize, vertex_count: u32, seed: u32) -> Vec<u32> {
    let mut state = seed;
    let mut indices = Vec::new();
    for _ in 0..count {
        state = state.wrapping_mul(1103515245).wrapping_add(12345) & 0x7fffffff;
        indices.push((state >> 8) % vertex_count);
    }
    indices
}

fn fan() -> Vec<u32> {
    vec![0, 1, 2, 0, 2, 3, 0, 3, 4, 5, 6, 7, 0, 4, 1]
}

fn greedy(indices: &[u32], vertex_count: usize) -> Vec<u32> {
    let mut destination = vec![0; indices.len()];
    optimize_vertex_cache(&mut destination, indices, vertex_count);
    destination
}

fn strip(indices: &[u32], vertex_count: usize) -> Vec<u32> {
    let mut destination = vec![0; indices.len()];
    optimize_vertex_cache_strip(&mut destination, indices, vertex_count);
    destination
}

fn fifo(indices: &[u32], vertex_count: usize, cache_size: u32) -> Vec<u32> {
    let mut destination = vec![0; indices.len()];
    optimize_vertex_cache_fifo(&mut destination, indices, vertex_count, cache_size);
    destination
}

fn sorted_triangles(indices: &[u32]) -> Vec<Vec<u32>> {
    let mut triangles: Vec<Vec<u32>> = indices.chunks(3).map(|t| t.to_vec()).collect();
    triangles.sort();
    triangles
}

/// The counts of an analysis: vertices transformed, warps executed, vertices in use.
fn counts(indices: &[u32], vertex_count: usize, sizes: [usize; 3]) -> (u32, u32, usize) {
    let result = analyze_vertex_cache(indices, vertex_count, sizes[0], sizes[1], sizes[2]);
    assert_eq!(result.index_count, indices.len());
    (result.vertices_transformed, result.warps_executed, result.unique_vertex_count)
}

/// The greedy walk with scores in single precision.
fn greedy_in_single_precision(
    indices: &[u32],
    vertex_count: usize,
    cache_scores: &[f32; 17],
    live_scores: &[f32; 9],
) -> Vec<u32> {
    let face_count = indices.len() / 3;
    let mut around: Vec<Vec<usize>> = vec![Vec::new(); vertex_count];
    for (corner, v) in indices.iter().enumerate() {
        around[*v as usize].push(corner / 3);
    }
    let score = |position: Option<usize>, live: usize| -> f32 {
        cache_scores[position.map_or(0, |p| p + 1)] + live_scores[live.min(8)]
    };
    let mut vertex_scores: Vec<f32> = around.iter().map(|list| score(None, list.len())).collect();
    let mut triangle_scores: Vec<f32> =
        indices.chunks(3).map(|t| t.iter().map(|v| vertex_scores[*v as usize]).sum()).collect();
    let mut emitted = vec![false; face_count];
    let mut cache: Vec<u32> = Vec::new();
    let mut cursor = 1;
    let mut output = Vec::new();
    let mut next = Some(0);
    while let Some(current) = next {
        let corners = &indices[3 * current..3 * current + 3];
        output.extend_from_slice(corners);
        emitted[current] = true;
        let mut touched = corners.to_vec();
        touched.extend(cache.iter().copied().filter(|v| !corners.contains(v)));
        for v in corners {
            let list = &mut around[*v as usize];
            let at = list.iter().position(|t| *t == current).unwrap();
            list.swap_remove(at);
        }
        let mut best = None;
        let mut best_score = 0.0;
        for (i, v) in touched.iter().enumerate() {
            let list = &around[*v as usize];
            let new_score = score(if i < 16 { Some(i) } else { None }, list.len());
            let diff = new_score - vertex_scores[*v as usize];
            vertex_scores[*v as usize] = new_score;
            for t in list {
                assert!(!emitted[*t]);
                triangle_scores[*t] += diff;
                assert!(triangle_scores[*t] > 0.0);
                if best_score < triangle_scores[*t] {
                    best = Some(*t);
                    best_score = triangle_scores[*t];
                }
            }
        }
        touched.truncate(16);
        cache = touched;
        next = best;
        if next.is_none() {
            while cursor < face_count && emitted[cursor] {
                cursor += 1;
            }
            next = if cursor < face_count { Some(cursor) } else { None };
        }
    }
    output
}

const CACHE_SCORES: [f32; 17] = [
    0.0, 0.779, 0.791, 0.789, 0.981, 0.843, 0.726, 0.847, 0.882, 0.867, 0.799, 0.642, 0.613, 0.600,
    0.568, 0.372, 0.234,
];
const LIVE_SCORES: [f32; 9] = [0.0, 0.995, 0.713, 0.450, 0.404, 0.059, 0.005, 0.147, 0.006];
const CACHE_SCORES_STRIP: [f32; 17] = [
    0.0, 1.000, 1.000, 1.000, 0.453, 0.561, 0.490, 0.459, 0.179, 0.526, 0.000, 0.227, 0.184, 0.490,
    0.112, 0.050, 0.131,
];
const LIVE_SCORES_STRIP: [f32; 9] =
    [0.0, 0.956, 0.786, 0.577, 0.558, 0.618, 0.549, 0.499, 0.489];

#[test]
fn test_empty() {
    optimize_vertex_cache(&mut [], &[], 0);
    optimize_vertex_cache_fifo(&mut [], &[], 0, 16);
}

#[test]
fn test_empty_strip() {
    optimize_vertex_cache_strip(&mut [], &[], 0);
}

#[test]
fn no_vertices_leave_the_destination_alone() {
    let mut destination = [9, 8, 7];
    optimize_vertex_cache(&mut destination, &[0, 1, 2], 0);
    assert_eq!(destination, [9, 8, 7]);
    optimize_vertex_cache_strip(&mut destination, &[0, 1, 2], 0);
    assert_eq!(destination, [9, 8, 7]);
    optimize_vertex_cache_fifo(&mut destination, &[0, 1, 2], 0, 3);
    assert_eq!(destination, [9, 8, 7]);
}

#[test]
fn no_indices_leave_the_destination_alone() {
    let mut destination = [9, 8, 7];
    optimize_vertex_cache(&mut destination, &[], 3);
    optimize_vertex_cache_strip(&mut destination, &[], 3);
    optimize_vertex_cache_fifo(&mut destination, &[], 3, 3);
    assert_eq!(destination, [9, 8, 7]);
}

#[test]
fn destination_behind_the_triangles_is_kept() {
    let mut destination = [9; 8];
    optimize_vertex_cache(&mut destination, &[2, 0, 1, 1, 0, 2], 3);
    assert_eq!(destination, [2, 0, 1, 1, 0, 2, 9, 9]);
    let mut destination = [9; 8];
    optimize_vertex_cache_fifo(&mut destination, &[2, 0, 1, 1, 0, 2], 3, 3);
    assert_eq!(destination, [2, 0, 1, 1, 0, 2, 9, 9]);
}

#[test]
fn greedy_order_of_grid() {
    assert_eq!(
        greedy(&grid(3, 3), 16),
        [
            0, 1, 4, 4, 1, 5, 1, 2, 5, 4, 5, 8, 5, 2, 6, 2, 3, 6, 6, 3, 7, 8, 5, 9, 5, 6, 9, 8, 9,
            12, 12, 9, 13, 9, 6, 10, 6, 7, 10, 9, 10, 13, 10, 7, 11, 13, 10, 14, 10, 11, 14, 14,
            11, 15
        ]
    );
}

#[test]
fn strip_order_of_grid() {
    assert_eq!(
        strip(&grid(3, 3), 16),
        [
            0, 1, 4, 4, 1, 5, 1, 2, 5, 4, 5, 8, 5, 2, 6, 2, 3, 6, 6, 3, 7, 6, 7, 10, 10, 7, 11, 10,
            11, 14, 14, 11, 15, 13, 10, 14, 9, 10, 13, 9, 6, 10, 5, 6, 9, 8, 5, 9, 8, 9, 12, 12, 9,
            13
        ]
    );
}

#[test]
fn fifo_order_of_grid() {
    assert_eq!(
        fifo(&grid(3, 3), 16, 16),
        [
            0, 1, 4, 4, 1, 5, 1, 2, 5, 4, 5, 8, 5, 2, 6, 8, 5, 9, 5, 6, 9, 2, 3, 6, 6, 3, 7, 9, 6,
            10, 6, 7, 10, 8, 9, 12, 12, 9, 13, 9, 10, 13, 10, 7, 11, 13, 10, 14, 10, 11, 14, 14,
            11, 15
        ]
    );
    assert_eq!(
        fifo(&grid(3, 3), 16, 3),
        [
            0, 1, 4, 4, 1, 5, 1, 2, 5, 4, 5, 8, 5, 2, 6, 8, 5, 9, 5, 6, 9, 2, 3, 6, 6, 3, 7, 9, 6,
            10, 6, 7, 10, 10, 7, 11, 9, 10, 13, 13, 10, 14, 10, 11, 14, 14, 11, 15, 12, 9, 13, 8, 9,
            12
        ]
    );
}

#[test]
fn degenerate_triangles_are_kept() {
    let indices = scattered(36, 9, 7);
    assert_eq!(indices[3..6], [8, 2, 2]);
    assert_eq!(
        greedy(&indices, 9),
        [
            5, 0, 1, 6, 0, 8, 4, 6, 0, 8, 4, 3, 0, 6, 3, 4, 2, 0, 8, 2, 2, 6, 2, 2, 2, 3, 2, 3, 7,
            2, 5, 7, 3, 3, 5, 7
        ]
    );
    assert_eq!(
        strip(&indices, 9),
        [
            5, 0, 1, 5, 7, 3, 3, 5, 7, 3, 7, 2, 2, 3, 2, 8, 2, 2, 8, 4, 3, 4, 2, 0, 6, 2, 2, 4, 6,
            0, 6, 0, 8, 0, 6, 3
        ]
    );
    assert_eq!(
        fifo(&indices, 9, 16),
        [
            5, 0, 1, 0, 6, 3, 6, 0, 8, 4, 6, 0, 4, 2, 0, 3, 5, 7, 5, 7, 3, 3, 7, 2, 2, 3, 2, 8, 4,
            3, 8, 2, 2, 6, 2, 2
        ]
    );
}

#[test]
fn separate_parts_are_reached_in_input_order() {
    let expected_greedy = [0, 1, 2, 0, 4, 1, 0, 2, 3, 0, 3, 4, 5, 6, 7];
    assert_eq!(greedy(&fan(), 8), expected_greedy);
    assert_eq!(strip(&fan(), 8), expected_greedy);
    assert_eq!(fifo(&fan(), 8, 16), [0, 1, 2, 0, 2, 3, 0, 3, 4, 0, 4, 1, 5, 6, 7]);
}

#[test]
fn fifo_starts_without_triangles_at_vertex_zero() {
    assert_eq!(fifo(&[1, 2, 3, 3, 2, 4], 6, 4), [1, 2, 3, 3, 2, 4]);
}

#[test]
fn greedy_order_matches_single_precision_scores() {
    let meshes = [
        (grid(40, 25), 41 * 26),
        (scattered(3000, 600, 1), 600),
        (scattered(3000, 40, 2), 40),
        (scattered(6000, 5000, 3), 5000),
    ];
    for (indices, vertex_count) in meshes {
        let expected = greedy_in_single_precision(
            &indices,
            vertex_count,
            &CACHE_SCORES,
            &LIVE_SCORES,
        );
        assert_eq!(greedy(&indices, vertex_count), expected);
        let expected = greedy_in_single_precision(
            &indices,
            vertex_count,
            &CACHE_SCORES_STRIP,
            &LIVE_SCORES_STRIP,
        );
        assert_eq!(strip(&indices, vertex_count), expected);
    }
}

#[test]
fn every_triangle_is_kept_with_its_corner_order() {
    for (indices, vertex_count) in [(grid(12, 9), 130), (scattered(900, 77, 5), 77)] {
        let expected = sorted_triangles(&indices);
        assert_eq!(sorted_triangles(&greedy(&indices, vertex_count)), expected);
        assert_eq!(sorted_triangles(&strip(&indices, vertex_count)), expected);
        assert_eq!(sorted_triangles(&fifo(&indices, vertex_count, 3)), expected);
        assert_eq!(sorted_triangles(&fifo(&indices, vertex_count, 16)), expected);
        assert_eq!(sorted_triangles(&fifo(&indices, vertex_count, u32::MAX)), expected);
    }
}

#[test]
fn reordering_keeps_the_vertices_in_use() {
    let indices = scattered(300, 50, 11);
    let unique = counts(&indices, 50, [16, 0, 0]).2;
    assert_eq!(counts(&greedy(&indices, 50), 50, [16, 0, 0]).2, unique);
    assert_eq!(counts(&fifo(&indices, 50, 16), 50, [16, 0, 0]).2, unique);
}

#[test]
fn reordering_saves_transformations() {
    let indices = scattered(0, 1, 0);
    assert_eq!(counts(&indices, 1, [16, 0, 0]), (0, 0, 0));
    let rows = grid(40, 25);
    let before = counts(&rows, 41 * 26, [16, 0, 0]).0;
    assert!(counts(&greedy(&rows, 41 * 26), 41 * 26, [16, 0, 0]).0 < before);
    assert!(counts(&fifo(&rows, 41 * 26, 16), 41 * 26, [16, 0, 0]).0 < before);
}

#[test]
fn statistics_of_grid() {
    let indices = grid(3, 3);
    assert_eq!(counts(&indices, 16, [16, 0, 0]), (16, 1, 16));
    assert_eq!(counts(&indices, 16, [3, 0, 0]), (24, 1, 16));
    assert_eq!(counts(&indices, 16, [16, 8, 0]), (24, 3, 16));
    assert_eq!(counts(&indices, 16, [4, 3, 2]), (54, 18, 16));
    assert_eq!(counts(&indices, 16, [16, 0, 2]), (36, 9, 16));
}

#[test]
fn statistics_of_degenerate_triangles() {
    let indices = scattered(36, 9, 7);
    assert_eq!(counts(&indices, 9, [16, 0, 0]), (9, 1, 9));
    assert_eq!(counts(&indices, 9, [3, 0, 0]), (26, 1, 9));
    assert_eq!(counts(&indices, 9, [16, 8, 0]), (16, 2, 9));
    assert_eq!(counts(&indices, 9, [4, 3, 2]), (33, 12, 9));
    assert_eq!(counts(&indices, 9, [16, 0, 2]), (28, 6, 9));
}

#[test]
fn statistics_of_no_triangles() {
    let result = analyze_vertex_cache(&[], 0, 3, 0, 0);
    assert_eq!(result, VertexCacheStatistics::default());
    assert_eq!(result.vertices_transformed, 0);
    assert_eq!(result.warps_executed, 0);
}

#[test]
fn unused_vertices_do_not_count() {
    assert_eq!(counts(&[1, 3, 5], 100, [16, 0, 0]), (3, 1, 3));
}

#[test]
fn a_cache_for_every_vertex_transforms_each_once() {
    let indices = scattered(600, 64, 13);
    let result = counts(&indices, 64, [64, 0, 0]);
    assert_eq!(result.0 as usize, result.2);
    let result = counts(&indices, 64, [usize::MAX, 0, 0]);
    assert_eq!(result.0 as usize, result.2);
}

#[test]
fn huge_caches_are_flushed() {
    // every triangle starts a warp of its own
    assert_eq!(counts(&[0, 1, 2, 0, 1, 2, 2, 1, 0], 3, [usize::MAX, 0, 1]), (9, 3, 3));
}

#[test]
fn transformations_stay_within_bounds() {
    let indices = scattered(600, 64, 17);
    for sizes in [[3, 0, 0], [16, 8, 0], [8, 16, 0], [16, 0, 5], [16, 32, 7]] {
        let (transformed, warps, unique) = counts(&indices, 64, sizes);
        assert!(unique <= transformed as usize);
        assert!(transformed as usize <= indices.len());
        assert!(1 <= warps && warps <= transformed);
    }
}

#[test]
fn regular_meshes_take_half_a_vertex_per_triangle_at_best() {
    let indices = grid(12, 9);
    for sizes in [[3, 0, 0], [16, 0, 0], [1000, 0, 0], [16, 32, 4]] {
        let (transformed, _, unique) = counts(&indices, 130, sizes);
        assert!(2 * transformed as usize >= indices.len() / 3);
        assert!(transformed as usize <= 6 * unique);
    }
}

#[test]
fn repeated_triangles_take_less_than_half_a_vertex_each() {
    let indices: Vec<u32> = (0..24).map(|i| i % 3).collect();
    assert_eq!(counts(&indices, 3, [16, 0, 0]), (3, 1, 3));
}

#[test]
fn gaps_between_numbers_do_not_change_the_fifo_order() {
    for indices in [grid(7, 5), scattered(300, 40, 11), fan()] {
        let renumbered: Vec<u32> = indices.iter().map(|v| 5 + 3 * v + v / 4).collect();
        for cache_size in [3, 16, 40] {
            let expected: Vec<u32> =
                fifo(&indices, 60, cache_size).iter().map(|v| 5 + 3 * v + v / 4).collect();
            assert_eq!(fifo(&renumbered, 500, cache_size), expected);
        }
    }
}

#[test]
fn numbers_do_not_change_the_greedy_order() {
    for indices in [grid(7, 5), scattered(300, 40, 11), fan()] {
        let renumbered: Vec<u32> = indices.iter().map(|v| 999 - 7 * v).collect();
        let expected: Vec<u32> = greedy(&indices, 60).iter().map(|v| 999 - 7 * v).collect();
        assert_eq!(greedy(&renumbered, 1000), expected);
        let expected: Vec<u32> = strip(&indices, 60).iter().map(|v| 999 - 7 * v).collect();
        assert_eq!(strip(&renumbered, 1200), expected);
    }
}

#[test]
fn numbers_do_not_change_the_statistics() {
    for indices in [grid(7, 5), scattered(300, 40, 11), fan()] {
        let renumbered: Vec<u32> = indices.iter().map(|v| 999 - 7 * v).collect();
        for sizes in [[3, 0, 0], [16, 32, 0], [16, 0, 4], [8, 5, 3]] {
            assert_eq!(counts(&renumbered, 1000, sizes), counts(&indices, 60, sizes));
        }
    }
}

#[test]
fn primitive_groups_are_counted_alone() {
    let indices = grid(9, 4);
    for warp_size in [0, 15] {
        let mut transformed = 0;
        let mut executed = 0;
        for group in indices.chunks(15) {
            let (vertices, warps, _) = counts(group, 50, [16, warp_size, 0]);
            transformed += vertices;
            executed += warps;
        }
        assert_eq!(executed, 15);
        assert_eq!(counts(&indices, 50, [16, warp_size, 5]), (transformed, executed, 50));
    }
}

#[test]
fn a_full_warp_cuts_a_primitive_group_short() {
    let indices = [0, 1, 2, 2, 3, 4, 2, 3, 4];
    assert_eq!(counts(&indices, 5, [16, 4, 2]), (6, 2, 5));
    assert_eq!(counts(&indices[..3], 5, [16, 4, 2]), (3, 1, 3));
    assert_eq!(counts(&indices[3..], 5, [16, 4, 2]), (3, 1, 3));
}

#[test]
fn checked_statistics_are_the_statistics() {
    let indices = grid(9, 4);
    let result = analyze_vertex_cache(&indices, 50, 16, 32, 8);
    assert_eq!(checked_analyze_vertex_cache(&indices, 50, 16, 32, 8), Some(result));
}
