use meshopt::vertex::score::round;
use meshopt::vertex::score::round_ratio;
use meshopt::vertex::score::score_from_thousandths;
use meshopt::vertex::score::vertex_score;
use meshopt::vertex::score::VertexScoreTable;
use meshopt::vertex::score::ONE;

/// The score of a single-precision number.
fn score_of(x: f32) -> i64 {
    let scaled = x as f64 * ONE as f64;
    assert_eq!(scaled.fract(), 0.0);
    scaled as i64
}

#[test]
fn thousandths_match_single_precision() {
    for m in 0..1001 {
        assert_eq!(score_from_thousandths(m), score_of(m as f32 / 1000.0));
    }
    assert_eq!(score_from_thousandths(1000), ONE as i64);
    assert_eq!(score_from_thousandths(500), ONE as i64 / 2);
}

#[test]
fn sums_match_single_precision() {
    for m in 0..1001 {
        for n in (0..1001).step_by(7) {
            let x = m as f32 / 1000.0;
            let y = n as f32 / 1000.0;
            assert_eq!(round(score_of(x) + score_of(y)), score_of(x + y));
            assert_eq!(round(score_of(x) - score_of(y)), score_of(x - y));
            let z = 3.0 * x + y;
            assert_eq!(round(score_of(z) + score_of(y)), score_of(z + y));
        }
    }
}

#[test]
fn ties_go_to_the_even_significand() {
    let unit = 1 << 24;
    assert_eq!(round(unit - 1), unit - 1);
    assert_eq!(round(unit), unit);
    assert_eq!(round(unit + 1), unit);
    assert_eq!(round(unit + 2), unit + 2);
    assert_eq!(round(unit + 3), unit + 4);
    assert_eq!(round(-(unit + 1)), -unit);
    assert_eq!(round(-(unit + 3)), -(unit + 4));
    assert_eq!(round(0), 0);
}

#[test]
fn rounding_reaches_the_next_power_of_two() {
    assert_eq!(round((1 << 25) - 1), 1 << 25);
}

#[test]
fn ratios_are_rounded_once() {
    assert_eq!(round_ratio(1, 3), 0);
    assert_eq!(round_ratio(2, 3), 1);
    assert_eq!(round_ratio(1, 2), 0);
    assert_eq!(round_ratio(3, 2), 2);
    assert_eq!(round_ratio(100, 10), 10);
}

#[test]
fn vertex_scores_add_position_and_valence() {
    let mut cache = [0; 17];
    let mut live = [0; 9];
    for i in 0..17 {
        cache[i] = 10 * i as u32;
    }
    for i in 0..9 {
        live[i] = 100 + i as u32;
    }
    let table = VertexScoreTable::from_thousandths(cache, live);
    assert_eq!(vertex_score(&table, -1, 0), score_of(0.0 + 0.1));
    assert_eq!(vertex_score(&table, 0, 1), score_of(0.01 + 0.101));
    assert_eq!(vertex_score(&table, 15, 7), score_of(0.16 + 0.107));
    assert_eq!(vertex_score(&table, 3, 8), score_of(0.04 + 0.108));
    assert_eq!(vertex_score(&table, 3, 9), score_of(0.04 + 0.108));
    assert_eq!(vertex_score(&table, 3, usize::MAX), score_of(0.04 + 0.108));
}
