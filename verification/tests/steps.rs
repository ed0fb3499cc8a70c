use meshopt::vertex::adjacency::build_triangle_adjacency;
use meshopt::vertex::adjacency::TriangleAdjacency;
use meshopt::vertex::drift::DRIFT_START;
use meshopt::vertex::drift::DRIFT_STEP;
use meshopt::vertex::fifo::get_next_vertex_dead_end;
use meshopt::vertex::fifo::get_next_vertex_neighbour;
use meshopt::vertex::greedy::get_next_triangle_dead_end;
use meshopt::vertex::greedy::touch_cache;
use meshopt::vertex::greedy::Scores;
use meshopt::vertex::greedy::CACHE_SCORES;
use meshopt::vertex::greedy::LIVE_SCORES;
use meshopt::vertex::score::VertexScoreTable;

fn list(adjacency: &TriangleAdjacency, v: usize) -> Vec<u32> {
    let begin = adjacency.offsets[v] as usize;
    adjacency.data[begin..begin + adjacency.counts[v] as usize].to_vec()
}

#[test]
fn adjacency_lists_triangles_in_order() {
    let mut adjacency = TriangleAdjacency::new();
    build_triangle_adjacency(&mut adjacency, &[0, 1, 2, 2, 1, 3, 3, 3, 0], 5);
    assert_eq!(adjacency.counts, [2, 2, 2, 3, 0]);
    assert_eq!(adjacency.offsets, [0, 2, 4, 6, 9]);
    assert_eq!(list(&adjacency, 0), [0, 2]);
    assert_eq!(list(&adjacency, 1), [0, 1]);
    assert_eq!(list(&adjacency, 2), [0, 1]);
    assert_eq!(list(&adjacency, 3), [1, 2, 2]);
    assert_eq!(list(&adjacency, 4), []);
}

#[test]
fn adjacency_is_built_anew() {
    let mut adjacency = TriangleAdjacency::new();
    build_triangle_adjacency(&mut adjacency, &[0, 1, 2], 3);
    build_triangle_adjacency(&mut adjacency, &[1, 1, 0], 2);
    assert_eq!(adjacency.data.len(), 3);
    assert_eq!(list(&adjacency, 0), [0]);
    assert_eq!(list(&adjacency, 1), [0, 0]);
}

#[test]
fn removal_moves_the_last_entry_up() {
    let mut adjacency = TriangleAdjacency::new();
    build_triangle_adjacency(&mut adjacency, &[0, 1, 1, 0, 2, 2, 0, 3, 3], 4);
    adjacency.remove(0, 0);
    assert_eq!(list(&adjacency, 0), [2, 1]);
    adjacency.remove(0, 7);
    assert_eq!(list(&adjacency, 0), [2, 1]);
    adjacency.remove(0, 1);
    assert_eq!(list(&adjacency, 0), [2]);
    adjacency.remove(1, 0);
    assert_eq!(list(&adjacency, 1), [0]);
    assert_eq!(list(&adjacency, 3), [2, 2]);
}

#[test]
fn touched_vertices_come_first() {
    assert_eq!(touch_cache(&[4, 5, 6, 7], &[6, 8, 4]), [6, 8, 4, 5, 7]);
    assert_eq!(touch_cache(&[4, 4, 5], &[5, 5, 1]), [5, 5, 1, 4, 4]);
    assert_eq!(touch_cache(&[], &[1, 2, 3]), [1, 2, 3]);
}

#[test]
fn next_triangle_in_input_order() {
    let mut cursor = 1;
    let flags = [true, true, false, true];
    assert_eq!(get_next_triangle_dead_end(&mut cursor, &flags, 4), Some(2));
    assert_eq!(cursor, 2);
    assert_eq!(get_next_triangle_dead_end(&mut cursor, &flags, 4), Some(2));
    assert_eq!(cursor, 2);
    let flags = [true, true, true, true];
    assert_eq!(get_next_triangle_dead_end(&mut cursor, &flags, 4), None);
    assert_eq!(cursor, 4);
}

#[test]
fn oldest_neighbour_that_stays_in_cache_is_preferred() {
    let live = [0, 1, 1, 9, 1];
    let stamps = [1, 15, 12, 11, 2];
    // vertex 4 is too old, and the triangles of vertex 3 are too many
    assert_eq!(get_next_vertex_neighbour(&[0, 1, 2, 3, 4], &live, &stamps, 18, 16), Some(2));
    assert_eq!(get_next_vertex_neighbour(&[3, 4], &live, &stamps, 18, 16), Some(3));
    assert_eq!(get_next_vertex_neighbour(&[4, 3], &live, &stamps, 18, 16), Some(4));
    assert_eq!(get_next_vertex_neighbour(&[0, 0], &live, &stamps, 18, 16), None);
    assert_eq!(get_next_vertex_neighbour(&[], &live, &stamps, 18, 16), None);
}

#[test]
fn only_candidates_need_time_stamps() {
    assert_eq!(get_next_vertex_neighbour(&[0, 1], &[2, 0], &[5], 7, 16), Some(0));
    assert_eq!(get_next_vertex_neighbour(&[1], &[0, 1], &[90, 5, 90], 7, 16), Some(1));
}

#[test]
fn candidates_stamped_ahead_of_time_are_passed_over() {
    assert_eq!(get_next_vertex_neighbour(&[0], &[1], &[9], 7, 16), None);
    assert_eq!(get_next_vertex_neighbour(&[0, 1], &[1, 8], &[9, 1], 7, 16), Some(1));
    assert_eq!(get_next_vertex_neighbour(&[0], &[10], &[9], 7, 16), Some(0));
}

#[test]
fn dead_end_on_the_stack_ignores_the_input_order() {
    let mut top = 2;
    let mut cursor = 1;
    assert_eq!(get_next_vertex_dead_end(&[9, 1], &mut top, &mut cursor, &[0, 3], 100), Some(1));
    assert_eq!((top, cursor), (1, 1));
}

#[test]
fn dead_end_returns_to_the_last_vertex_met() {
    let live = [0, 0, 3, 0, 1];
    let mut top = 4;
    let mut cursor = 1;
    let stack = [4, 2, 3, 0, 2];
    assert_eq!(get_next_vertex_dead_end(&stack, &mut top, &mut cursor, &live, 5), Some(2));
    assert_eq!((top, cursor), (1, 1));
}

#[test]
fn dead_end_goes_on_in_input_order() {
    let live = [7, 0, 0, 2, 0];
    let mut top = 3;
    let mut cursor = 1;
    let stack = [4, 2, 1];
    assert_eq!(get_next_vertex_dead_end(&stack, &mut top, &mut cursor, &live, 5), Some(3));
    assert_eq!((top, cursor), (0, 3));
    let live = [0, 0, 0, 0, 0];
    assert_eq!(get_next_vertex_dead_end(&stack, &mut top, &mut cursor, &live, 5), None);
    assert_eq!((top, cursor), (0, 5));
}

#[test]
fn triangle_scores_stay_close_to_their_corners() {
    // a fan of forty triangles around vertex 0, each drawn twice
    let mut indices: Vec<u32> = Vec::new();
    for i in 0..80 {
        indices.extend_from_slice(&[0, 1 + i % 40, 1 + (i + 1) % 40]);
    }
    let table = VertexScoreTable::from_thousandths(CACHE_SCORES, LIVE_SCORES);
    let mut adjacency = TriangleAdjacency::new();
    build_triangle_adjacency(&mut adjacency, &indices, 41);
    let mut scores = Scores::new(&table, &adjacency, &indices, 41);
    let mut adjusted = vec![0i64; 80];
    let mut emitted = vec![false; 80];
    let mut cache: Vec<u32> = Vec::new();
    let mut next = Some(0);
    let mut steps = 0;
    while let Some(t) = next {
        steps += 1;
        let corners = &indices[3 * t as usize..3 * t as usize + 3];
        emitted[t as usize] = true;
        scores.triangle[t as usize] = 0;
        cache = touch_cache(&cache, corners);
        for v in corners {
            adjacency.remove(*v as usize, t);
        }
        for v in &cache {
            for other in list(&adjacency, *v as usize) {
                adjusted[other as usize] += 1;
            }
        }
        scores.best = None;
        scores.best_score = 0;
        scores.rescore(&table, &adjacency, &cache);
        cache.truncate(16);
        for other in 0..80 {
            if !emitted[other] {
                let corners = &indices[3 * other..3 * other + 3];
                let sum: i64 = corners.iter().map(|v| scores.vertex[*v as usize]).sum();
                let drift = DRIFT_START as i64 + DRIFT_STEP as i64 * adjusted[other];
                assert!((scores.triangle[other] - sum).abs() <= drift);
                assert!(scores.triangle[other] > 0);
            }
        }
        next = scores.best;
    }
    assert_eq!(steps, 80);
}
