//! How far rounding lets the scores of the greedy walk drift.
//!
//! The score of a triangle is kept up to date by adding differences of vertex scores to it,
//! and every addition rounds. The triangle score therefore drifts away from the sum of the
//! scores of its corners, by a bounded amount each time that it is adjusted. As long as the
//! drift is small against the least score of a vertex with live triangles, every score that the
//! walk computes is positive.

use crate::mesh;
use crate::vertex::adjacency;
use crate::vertex::greedy;
use crate::vertex::greedy::ScoreState;
use crate::vertex::greedy::Walk;
use crate::vertex::score;
use crate::vertex::score::ScoreTable;
use crate::vertex::score::CACHE_SIZE_MAX;
use crate::vertex::score::ONE;
use crate::vertex::score::VALENCE_MAX;
use vstd::arithmetic::power2::*;
use vstd::prelude::*;

verus! {

/// Bound on the drift of a triangle score before the first step: it is a sum with two roundings.
pub const DRIFT_START: u64 = 4096;

/// Bound on the drift of a triangle score in one adjustment: the difference of two vertex scores
/// is rounded, and so is the new triangle score.
pub const DRIFT_STEP: u64 = 2560;

/// Bound on the drift of a triangle score in its first `n` adjustments.
pub open spec fn drift(n: int) -> int {
    DRIFT_START + DRIFT_STEP * n
}

/// The scores of the corners of triangle `t`, added without rounding.
pub open spec fn corner_sum(indices: Seq<u32>, vertex: Seq<int>, t: int) -> int {
    vertex[indices[3 * t] as int] + vertex[indices[3 * t + 1] as int]
        + vertex[indices[3 * t + 2] as int]
}

/// `x` and `y` differ by at most `e`.
pub open spec fn within(x: int, y: int, e: int) -> bool {
    -e <= x - y <= e
}

/// How often `t` stands among the first `n` entries of `list`.
pub open spec fn occurrences(list: Seq<u32>, n: int, t: u32) -> int
    decreases n,
{
    if n <= 0 {
        0
    } else {
        occurrences(list, n - 1, t) + (if list[n - 1] == t {
            1int
        } else {
            0int
        })
    }
}

/// How often triangle `t` is adjusted while the first `n` vertices of `cache` are placed.
pub open spec fn placing_adjustments(
    live: Seq<Seq<u32>>,
    cache: Seq<u32>,
    n: int,
    t: u32,
) -> int
    decreases n,
{
    if n <= 0 {
        0
    } else {
        let list = live[cache[n - 1] as int];
        placing_adjustments(live, cache, n - 1, t) + occurrences(list, list.len() as int, t)
    }
}

/// The vertices that the next step of a walk places, from the front of the cache.
pub open spec fn next_cache(indices: Seq<u32>, w: Walk) -> Seq<u32> {
    greedy::touched(w.cache, mesh::triangle(indices, w.next->0 as int))
}

/// The live triangles around each vertex in the rescoring of the next step of a walk.
pub open spec fn next_live(indices: Seq<u32>, w: Walk) -> Seq<Seq<u32>> {
    adjacency::detached(indices, w.live, w.next->0)
}

/// The scores with which the rescoring of the next step of a walk starts: those of the walk,
/// but 0 for the triangle that is emitted.
pub open spec fn next_scores(w: Walk) -> ScoreState {
    ScoreState {
        vertex: w.vertex_scores,
        triangle: w.triangle_scores.update(w.next->0 as int, 0),
        best: None,
        best_score: 0,
    }
}

/// How often triangle `t` is adjusted in the first `k` steps of the greedy walk.
pub open spec fn adjustments(
    indices: Seq<u32>,
    vertex_count: nat,
    table: ScoreTable,
    k: nat,
    t: u32,
) -> int
    decreases k,
{
    if k == 0 {
        0
    } else {
        let w = greedy::walk_after(indices, vertex_count, table, (k - 1) as nat);
        let cache = next_cache(indices, w);
        adjustments(indices, vertex_count, table, (k - 1) as nat, t) + placing_adjustments(
            next_live(indices, w),
            cache,
            cache.len() as int,
            t,
        )
    }
}

/// The score that entry `n` of the list of vertex `v` gets while `v` is placed at position `i`
/// of the cache.
pub open spec fn placing_score(
    s: ScoreState,
    table: ScoreTable,
    live: Seq<Seq<u32>>,
    v: int,
    i: int,
    n: int,
) -> int {
    let position = if i < CACHE_SIZE_MAX {
        i
    } else {
        -1
    };
    let new_score = table.score(position, live[v].len() as int);
    let diff = score::nearest(new_score - s.vertex[v]);
    ScoreState { vertex: s.vertex.update(v, new_score), ..s }.adjusted_all(
        live[v],
        n + 1,
        diff,
    ).triangle[live[v][n] as int]
}

/// Step `k` of the greedy walk places a vertex at position `i` of the cache, and entry `j` of
/// its list is triangle `t`.
pub open spec fn is_adjusted_in(
    indices: Seq<u32>,
    vertex_count: nat,
    table: ScoreTable,
    k: nat,
    i: int,
    j: int,
    t: u32,
) -> bool {
    let w = greedy::walk_after(indices, vertex_count, table, k);
    let cache = next_cache(indices, w);
    let list = next_live(indices, w)[cache[i] as int];
    0 <= i < cache.len() && 0 <= j < list.len() && list[j] == t
}

/// The score that entry `j` of the list of the vertex at position `i` of the cache gets in step
/// `k` of the greedy walk.
pub open spec fn adjusted_score(
    indices: Seq<u32>,
    vertex_count: nat,
    table: ScoreTable,
    k: nat,
    i: int,
    j: int,
) -> int {
    let w = greedy::walk_after(indices, vertex_count, table, k);
    let cache = next_cache(indices, w);
    let live = next_live(indices, w);
    placing_score(
        next_scores(w).rescored(table, live, cache, i),
        table,
        live,
        cache[i] as int,
        i,
        j,
    )
}

/// A vertex with a live triangle scores at least `least`.
pub open spec fn live_scores_least(table: ScoreTable, least: nat) -> bool {
    &&& score::representable(least as int)
    &&& forall|j: int| 1 <= j <= VALENCE_MAX ==> #[trigger] table.live[j] >= least
}

/// In the rescoring `s`, triangle `t` has drifted by at most `e`, and each of its corners scores
/// at least `least`.
spec fn is_drifting(
    indices: Seq<u32>,
    s: ScoreState,
    vertex_count: nat,
    t: int,
    least: int,
    e: int,
) -> bool {
    &&& s.vertex.len() == vertex_count
    &&& s.triangle.len() == mesh::face_count(indices)
    &&& forall|v: int| 0 <= v < s.vertex.len() ==> 0 <= #[trigger] s.vertex[v] <= 2 * ONE
    &&& within(s.triangle[t], corner_sum(indices, s.vertex, t), e)
    &&& s.vertex[indices[3 * t] as int] >= least
    &&& s.vertex[indices[3 * t + 1] as int] >= least
    &&& s.vertex[indices[3 * t + 2] as int] >= least
}

proof fn lemma_occurrences(list: Seq<u32>, n: int, t: u32)
    requires
        0 <= n <= list.len(),
    ensures
        0 <= occurrences(list, n, t),
        occurrences(list, n, t) == list.take(n).to_multiset().count(t),
    decreases n,
{
    list.take(n).to_multiset_ensures();
    if n > 0 {
        lemma_occurrences(list, n - 1, t);
        list.take(n - 1).to_multiset_ensures();
        assert(list.take(n) =~= list.take(n - 1).push(list[n - 1]));
    } else {
        assert(!list.take(0).contains(t));
    }
}

proof fn lemma_occurrences_order(list: Seq<u32>, m: int, n: int, t: u32)
    requires
        m <= n,
    ensures
        occurrences(list, m, t) <= occurrences(list, n, t),
    decreases n,
{
    if m < n && n > 0 {
        lemma_occurrences_order(list, m, n - 1, t);
    }
}

/// A triangle that is not emitted is listed for a vertex once for each of its corners there.
proof fn lemma_listed_often(
    indices: Seq<u32>,
    live: Seq<Seq<u32>>,
    emitted: Seq<u32>,
    v: int,
    t: u32,
)
    requires
        adjacency::lists_live(indices, live, emitted),
        0 <= v < live.len(),
    ensures
        0 <= occurrences(live[v], live[v].len() as int, t) <= 3,
        !emitted.contains(t) ==> occurrences(live[v], live[v].len() as int, t)
            == adjacency::corners_at(indices, v, t as int, indices.len() as int),
{
    lemma_occurrences(live[v], live[v].len() as int, t);
    assert(live[v].take(live[v].len() as int) =~= live[v]);
    assert(live[v].to_multiset().count(t) <= 3);
}

/// Rounding to within 8 loses at most 2048 units, and rounding to within 2 at most 512.
proof fn lemma_errors(x: int)
    ensures
        -8 * ONE <= x <= 8 * ONE ==> within(score::nearest(x), x, 2048),
        -2 * ONE <= x <= 2 * ONE ==> within(score::nearest(x), x, 512),
{
    lemma2_to64();
    if -8 * ONE <= x <= 8 * ONE {
        score::lemma_nearest_error(x, 12);
    }
    if -2 * ONE <= x <= 2 * ONE {
        score::lemma_nearest_error(x, 10);
    }
}

/// Up to three times a number is that number added up.
proof fn lemma_few_times(c: int, x: int)
    requires
        0 <= c <= 3,
    ensures
        c * x == (if c == 0 {
            0
        } else if c == 1 {
            x
        } else if c == 2 {
            x + x
        } else {
            x + x + x
        }),
{
}

/// Adjusting the first `n` entries of a list moves the score of `t` by `diff` for each time it
/// stands there, up to the rounding of each sum.
proof fn lemma_adjusted_drift(s: ScoreState, list: Seq<u32>, n: int, diff: int, t: u32)
    requires
        0 <= n <= list.len(),
        forall|i: int| 0 <= i < list.len() ==> #[trigger] list[i] < s.triangle.len(),
        t < s.triangle.len(),
        occurrences(list, n, t) <= 3,
        -7 * ONE <= s.triangle[t as int] <= 7 * ONE,
        -7 * ONE <= s.triangle[t as int] + occurrences(list, n, t) * diff <= 7 * ONE,
    ensures
        s.adjusted_all(list, n, diff).triangle.len() == s.triangle.len(),
        within(
            s.adjusted_all(list, n, diff).triangle[t as int],
            s.triangle[t as int] + occurrences(list, n, t) * diff,
            2048 * occurrences(list, n, t),
        ),
    decreases n,
{
    if n > 0 {
        let c = occurrences(list, n, t);
        let c0 = occurrences(list, n - 1, t);
        let base = s.triangle[t as int];
        lemma_occurrences(list, n - 1, t);
        assert(c0 == c || c0 == c - 1);
        assert(-7 * ONE <= base + c0 * diff <= 7 * ONE) by (nonlinear_arith)
            requires
                0 <= c0 <= c,
                c0 == c || c0 == c - 1,
                c <= 3,
                -7 * ONE <= base <= 7 * ONE,
                -7 * ONE <= base + c * diff <= 7 * ONE,
        ;
        lemma_adjusted_drift(s, list, n - 1, diff, t);
        let before = s.adjusted_all(list, n - 1, diff);
        if list[n - 1] == t {
            let x = before.triangle[t as int] + diff;
            assert((c0 + 1) * diff == c0 * diff + diff) by (nonlinear_arith);
            lemma_errors(x);
        }
    }
}

proof fn lemma_score_least(table: ScoreTable, position: int, live: int, least: nat)
    requires
        table.wf(),
        live_scores_least(table, least),
        -1 <= position < CACHE_SIZE_MAX,
        1 <= live,
    ensures
        table.score(position, live) >= least,
{
    let clamped: int = if live < VALENCE_MAX { live } else { VALENCE_MAX as int };
    assert(table.live[clamped] >= least);
    let sum = table.cache[1 + position] + table.live[clamped];
    score::lemma_nearest_ratio_keeps_side(sum as nat, 1, least);
}

/// Placing a vertex lets triangle `t` drift on by one step for each of its corners there, and
/// every score that `t` gets meanwhile is that close to the sum of three corner scores.
proof fn lemma_placed_drift(
    indices: Seq<u32>,
    s: ScoreState,
    table: ScoreTable,
    live: Seq<Seq<u32>>,
    emitted: Seq<u32>,
    v: int,
    i: int,
    t: u32,
    least: nat,
    e: int,
)
    requires
        mesh::is_mesh(indices, live.len() as int),
        adjacency::lists_live(indices, live, emitted),
        table.wf(),
        live_scores_least(table, least),
        is_drifting(indices, s, live.len(), t as int, least as int, e),
        0 <= v < live.len(),
        0 <= i,
        t < mesh::face_count(indices),
        !emitted.contains(t),
        0 <= e <= ONE - 8192,
    ensures
        ({
            let e1 = e + DRIFT_STEP * occurrences(live[v], live[v].len() as int, t);
            &&& is_drifting(
                indices,
                s.placed(table, live, v, i),
                live.len(),
                t as int,
                least as int,
                e1,
            )
            &&& forall|n: int|
                0 <= n < live[v].len() && live[v][n] == t ==> #[trigger] placing_score(
                    s,
                    table,
                    live,
                    v,
                    i,
                    n,
                ) >= 3 * least - e1
        }),
{
    let list = live[v];
    let len = list.len() as int;
    let position = if i < CACHE_SIZE_MAX { i } else { -1 };
    let new_score = table.score(position, len);
    let delta = new_score - s.vertex[v];
    let diff = score::nearest(delta);
    let moved = ScoreState { vertex: s.vertex.update(v, new_score), ..s };
    let c = occurrences(list, len, t);
    let sum = corner_sum(indices, s.vertex, t as int);
    score::lemma_score_bounds(table, position, len);
    lemma_errors(delta);
    lemma_listed_often(indices, live, emitted, v, t);
    if c > 0 {
        lemma_score_least(table, position, len, least);
    }
    assert forall|n: int| 0 <= n < len implies #[trigger] list[n] < s.triangle.len() by {
        adjacency::lemma_listed(indices, live, emitted, v, n);
    }
    greedy::lemma_adjusted_all(moved, list, len, diff);
    lemma_few_times(c, diff);
    lemma_few_times(c, delta);
    assert(corner_sum(indices, moved.vertex, t as int) == sum + c * delta);
    lemma_adjusted_drift(moved, list, len, diff, t);
    assert forall|n: int| 0 <= n < len && list[n] == t implies #[trigger] placing_score(
        s,
        table,
        live,
        v,
        i,
        n,
    ) >= 3 * least - e - DRIFT_STEP * c by {
        let m = occurrences(list, n + 1, t);
        lemma_occurrences(list, n, t);
        lemma_occurrences_order(list, n + 1, len, t);
        lemma_few_times(m, diff);
        lemma_few_times(m, delta);
        lemma_adjusted_drift(moved, list, n + 1, diff, t);
    }
}

/// Each placing of a rescoring adds its adjustments to the drift of `t`.
proof fn lemma_rescored_drift(
    indices: Seq<u32>,
    s: ScoreState,
    table: ScoreTable,
    live: Seq<Seq<u32>>,
    emitted: Seq<u32>,
    cache: Seq<u32>,
    n: int,
    t: u32,
    least: nat,
    e: int,
)
    requires
        mesh::is_mesh(indices, live.len() as int),
        adjacency::lists_live(indices, live, emitted),
        table.wf(),
        live_scores_least(table, least),
        is_drifting(indices, s, live.len(), t as int, least as int, e),
        0 <= n <= cache.len(),
        forall|i: int| 0 <= i < cache.len() ==> #[trigger] cache[i] < live.len(),
        t < mesh::face_count(indices),
        !emitted.contains(t),
        0 <= e,
        e + DRIFT_STEP * placing_adjustments(live, cache, n, t) <= ONE - 8192,
    ensures
        ({
            let e1 = e + DRIFT_STEP * placing_adjustments(live, cache, n, t);
            &&& e <= e1
            &&& is_drifting(
                indices,
                s.rescored(table, live, cache, n),
                live.len(),
                t as int,
                least as int,
                e1,
            )
            &&& forall|i: int, j: int|
                0 <= i < n && 0 <= j < live[cache[i] as int].len() && live[cache[i] as int][j] == t
                    ==> #[trigger] placing_score(
                    s.rescored(table, live, cache, i),
                    table,
                    live,
                    cache[i] as int,
                    i,
                    j,
                ) >= 3 * least - e1
        }),
    decreases n,
{
    if n > 0 {
        let v = cache[n - 1] as int;
        lemma_listed_often(indices, live, emitted, v, t);
        lemma_rescored_drift(indices, s, table, live, emitted, cache, n - 1, t, least, e);
        lemma_placed_drift(
            indices,
            s.rescored(table, live, cache, n - 1),
            table,
            live,
            emitted,
            v,
            n - 1,
            t,
            least,
            e + DRIFT_STEP * placing_adjustments(live, cache, n - 1, t),
        );
    }
}

/// The scores of a walk.
spec fn walk_scores(w: Walk) -> ScoreState {
    ScoreState {
        vertex: w.vertex_scores,
        triangle: w.triangle_scores,
        best: None,
        best_score: 0,
    }
}

/// A vertex that stands at a corner has a live triangle at the start.
proof fn lemma_corner_least(
    indices: Seq<u32>,
    vertex_count: nat,
    table: ScoreTable,
    t: u32,
    corner: int,
    least: nat,
)
    requires
        mesh::is_mesh(indices, vertex_count as int),
        indices.len() <= u32::MAX,
        table.wf(),
        live_scores_least(table, least),
        t < mesh::face_count(indices),
        0 <= corner < 3,
    ensures
        greedy::walk_start(indices, vertex_count, table).vertex_scores[indices[3 * t
            + corner] as int] >= least,
{
    let v = indices[3 * t + corner] as int;
    let list = adjacency::incidence(indices, vertex_count)[v];
    adjacency::lemma_incident_count(indices, v, t, indices.len() as int);
    list.to_multiset_ensures();
    assert(list.contains(t));
    lemma_score_least(table, -1, list.len() as int, least);
}

proof fn lemma_start_drift(
    indices: Seq<u32>,
    vertex_count: nat,
    table: ScoreTable,
    t: u32,
    least: nat,
)
    requires
        mesh::is_mesh(indices, vertex_count as int),
        indices.len() <= u32::MAX,
        table.wf(),
        live_scores_least(table, least),
        t < mesh::face_count(indices),
    ensures
        is_drifting(
            indices,
            walk_scores(greedy::walk_start(indices, vertex_count, table)),
            vertex_count,
            t as int,
            least as int,
            drift(0),
        ),
{
    let w = greedy::walk_start(indices, vertex_count, table);
    assert forall|v: int| 0 <= v < vertex_count implies 0 <= #[trigger] w.vertex_scores[v] <= 2
        * ONE by {
        score::lemma_score_bounds(table, -1, w.live[v].len() as int);
    }
    lemma_corner_least(indices, vertex_count, table, t, 0, least);
    lemma_corner_least(indices, vertex_count, table, t, 1, least);
    lemma_corner_least(indices, vertex_count, table, t, 2, least);
    let a = w.vertex_scores[indices[3 * t] as int];
    let b = w.vertex_scores[indices[3 * t + 1] as int];
    let c = w.vertex_scores[indices[3 * t + 2] as int];
    lemma_errors(a + b);
    lemma_errors(score::nearest(a + b) + c);
    assert(w.triangle_scores[t as int] == score::nearest(score::nearest(a + b) + c));
}

/// One step of the walk, for a triangle that it does not emit.
proof fn lemma_step_drift(
    indices: Seq<u32>,
    vertex_count: nat,
    table: ScoreTable,
    k: nat,
    t: u32,
    least: nat,
)
    requires
        mesh::is_mesh(indices, vertex_count as int),
        0 < indices.len() <= u32::MAX,
        table.wf(),
        live_scores_least(table, least),
        k < mesh::face_count(indices),
        t < mesh::face_count(indices),
        !greedy::walk_after(indices, vertex_count, table, k + 1).order.contains(t),
        0 <= drift(adjustments(indices, vertex_count, table, k, t)),
        2 * drift(adjustments(indices, vertex_count, table, k + 1, t)) <= ONE,
        is_drifting(
            indices,
            walk_scores(greedy::walk_after(indices, vertex_count, table, k)),
            vertex_count,
            t as int,
            least as int,
            drift(adjustments(indices, vertex_count, table, k, t)),
        ),
    ensures
        is_drifting(
            indices,
            walk_scores(greedy::walk_after(indices, vertex_count, table, k + 1)),
            vertex_count,
            t as int,
            least as int,
            drift(adjustments(indices, vertex_count, table, k + 1, t)),
        ),
        forall|i: int, j: int|
            is_adjusted_in(indices, vertex_count, table, k, i, j, t) ==> #[trigger] adjusted_score(
                indices,
                vertex_count,
                table,
                k,
                i,
                j,
            ) >= 3 * least - drift(adjustments(indices, vertex_count, table, k + 1, t)),
{
    let w = greedy::walk_after(indices, vertex_count, table, k);
    greedy::lemma_walk_after(indices, vertex_count, table, k);
    greedy::lemma_walk_step(indices, vertex_count, table, w);
    let next = w.next->0;
    let order = w.order.push(next);
    let cache = next_cache(indices, w);
    let live = next_live(indices, w);
    let e = drift(adjustments(indices, vertex_count, table, k, t));
    adjacency::lemma_detached_live(indices, w.live, w.order, next);
    assert(order[w.order.len() as int] == next);
    assert(greedy::walk_after(indices, vertex_count, table, k + 1) == greedy::walk_step(
        indices,
        table,
        w,
    ));
    lemma_rescored_drift(
        indices,
        next_scores(w),
        table,
        live,
        order,
        cache,
        cache.len() as int,
        t,
        least,
        e,
    );
}

/// The number of adjustments of a triangle only grows, by at most three for each vertex placed,
/// and a step places at most nineteen vertices.
pub proof fn lemma_adjustments_bound(
    indices: Seq<u32>,
    vertex_count: nat,
    table: ScoreTable,
    k: nat,
    t: u32,
)
    requires
        mesh::is_mesh(indices, vertex_count as int),
        0 < indices.len() <= u32::MAX,
        k < mesh::face_count(indices),
    ensures
        adjustments(indices, vertex_count, table, k, t) <= adjustments(
            indices,
            vertex_count,
            table,
            k + 1,
            t,
        ) <= adjustments(indices, vertex_count, table, k, t) + 57,
{
    let w = greedy::walk_after(indices, vertex_count, table, k);
    greedy::lemma_walk_after(indices, vertex_count, table, k);
    greedy::lemma_walk_step(indices, vertex_count, table, w);
    adjacency::lemma_detached_live(indices, w.live, w.order, w.next->0);
    let cache = next_cache(indices, w);
    lemma_placing_adjustments_bound(
        indices,
        next_live(indices, w),
        w.order.push(w.next->0),
        cache,
        cache.len() as int,
        t,
    );
}

/// In `k` steps a triangle is adjusted at most 57 times as often, whatever the mesh.
pub proof fn lemma_adjustments_total(
    indices: Seq<u32>,
    vertex_count: nat,
    table: ScoreTable,
    k: nat,
    t: u32,
)
    requires
        mesh::is_mesh(indices, vertex_count as int),
        0 < indices.len() <= u32::MAX,
        k <= mesh::face_count(indices),
    ensures
        0 <= adjustments(indices, vertex_count, table, k, t) <= 57 * k,
    decreases k,
{
    if k > 0 {
        lemma_adjustments_total(indices, vertex_count, table, (k - 1) as nat, t);
        lemma_adjustments_bound(indices, vertex_count, table, (k - 1) as nat, t);
    }
}

proof fn lemma_placing_adjustments_bound(
    indices: Seq<u32>,
    live: Seq<Seq<u32>>,
    emitted: Seq<u32>,
    cache: Seq<u32>,
    n: int,
    t: u32,
)
    requires
        adjacency::lists_live(indices, live, emitted),
        0 <= n <= cache.len(),
        forall|i: int| 0 <= i < cache.len() ==> #[trigger] cache[i] < live.len(),
    ensures
        0 <= placing_adjustments(live, cache, n, t) <= 3 * n,
    decreases n,
{
    if n > 0 {
        lemma_listed_often(indices, live, emitted, cache[n - 1] as int, t);
        lemma_placing_adjustments_bound(indices, live, emitted, cache, n - 1, t);
    }
}

proof fn lemma_walk_drift(
    indices: Seq<u32>,
    vertex_count: nat,
    table: ScoreTable,
    k: nat,
    t: u32,
    least: nat,
)
    requires
        mesh::is_mesh(indices, vertex_count as int),
        0 < indices.len() <= u32::MAX,
        table.wf(),
        live_scores_least(table, least),
        k <= mesh::face_count(indices),
        t < mesh::face_count(indices),
        !greedy::walk_after(indices, vertex_count, table, k).order.contains(t),
        2 * drift(adjustments(indices, vertex_count, table, k, t)) <= ONE,
    ensures
        0 <= adjustments(indices, vertex_count, table, k, t),
        is_drifting(
            indices,
            walk_scores(greedy::walk_after(indices, vertex_count, table, k)),
            vertex_count,
            t as int,
            least as int,
            drift(adjustments(indices, vertex_count, table, k, t)),
        ),
    decreases k,
{
    if k == 0 {
        lemma_start_drift(indices, vertex_count, table, t, least);
    } else {
        let j = (k - 1) as nat;
        let w = greedy::walk_after(indices, vertex_count, table, j);
        greedy::lemma_walk_after(indices, vertex_count, table, j);
        greedy::lemma_walk_step(indices, vertex_count, table, w);
        assert(!w.order.contains(t)) by {
            if w.order.contains(t) {
                let i = choose|i: int| 0 <= i < w.order.len() && w.order[i] == t;
                assert(w.order.push(w.next->0)[i] == t);
            }
        }
        lemma_adjustments_bound(indices, vertex_count, table, j, t);
        lemma_walk_drift(indices, vertex_count, table, j, t, least);
        lemma_step_drift(indices, vertex_count, table, j, t, least);
    }
}

/// After `k` steps of the greedy walk, the score of a triangle that is not emitted differs from
/// the sum of the scores of its corners by no more than the drift of its adjustments so far.
pub proof fn lemma_triangle_score_drift(
    indices: Seq<u32>,
    vertex_count: nat,
    table: ScoreTable,
    k: nat,
    t: u32,
)
    requires
        mesh::is_mesh(indices, vertex_count as int),
        0 < indices.len() <= u32::MAX,
        table.wf(),
        k <= mesh::face_count(indices),
        t < mesh::face_count(indices),
        !greedy::walk_after(indices, vertex_count, table, k).order.contains(t),
        2 * drift(adjustments(indices, vertex_count, table, k, t)) <= ONE,
    ensures
        ({
            let w = greedy::walk_after(indices, vertex_count, table, k);
            within(
                w.triangle_scores[t as int],
                corner_sum(indices, w.vertex_scores, t as int),
                drift(adjustments(indices, vertex_count, table, k, t)),
            )
        }),
{
    assert(score::is_scaled(0, 0, 0));
    lemma_walk_drift(indices, vertex_count, table, k, t, 0);
}

/// Every score that the greedy walk computes for a triangle is positive, as long as the drift of
/// the triangle stays below three times the least score of a vertex with a live triangle.
pub proof fn lemma_adjusted_score_is_positive(
    indices: Seq<u32>,
    vertex_count: nat,
    table: ScoreTable,
    least: nat,
    k: nat,
    i: int,
    j: int,
    t: u32,
)
    requires
        mesh::is_mesh(indices, vertex_count as int),
        0 < indices.len() <= u32::MAX,
        table.wf(),
        live_scores_least(table, least),
        k < mesh::face_count(indices),
        is_adjusted_in(indices, vertex_count, table, k, i, j, t),
        2 * drift(adjustments(indices, vertex_count, table, k + 1, t)) <= ONE,
        drift(adjustments(indices, vertex_count, table, k + 1, t)) < 3 * least,
    ensures
        adjusted_score(indices, vertex_count, table, k, i, j) > 0,
{
    let w = greedy::walk_after(indices, vertex_count, table, k);
    greedy::lemma_walk_after(indices, vertex_count, table, k);
    greedy::lemma_walk_step(indices, vertex_count, table, w);
    let next = w.next->0;
    adjacency::lemma_detached_live(indices, w.live, w.order, next);
    adjacency::lemma_listed(
        indices,
        next_live(indices, w),
        w.order.push(next),
        next_cache(indices, w)[i] as int,
        j,
    );
    assert(greedy::walk_after(indices, vertex_count, table, k + 1) == greedy::walk_step(
        indices,
        table,
        w,
    ));
    assert(!w.order.contains(t)) by {
        if w.order.contains(t) {
            let p = choose|p: int| 0 <= p < w.order.len() && w.order[p] == t;
            assert(w.order.push(next)[p] == t);
        }
    }
    lemma_adjustments_bound(indices, vertex_count, table, k, t);
    lemma_walk_drift(indices, vertex_count, table, k, t, least);
    lemma_step_drift(indices, vertex_count, table, k, t, least);
}

/// The tables given in thousandths are well formed, and the live scores of at least `m`
/// thousandths come out at `least` or more.
proof fn lemma_table_least(cache: Seq<u32>, live: Seq<u32>, m: nat, least: nat)
    requires
        cache.len() == 1 + CACHE_SIZE_MAX,
        live.len() == 1 + VALENCE_MAX,
        forall|i: int| 0 <= i < cache.len() ==> #[trigger] cache[i] <= 1000,
        forall|i: int| 0 <= i < live.len() ==> #[trigger] live[i] <= 1000,
        forall|i: int| 1 <= i < live.len() ==> #[trigger] live[i] >= m,
        score::representable(least as int),
        least * 1000 <= m * ONE,
    ensures
        ScoreTable::of_thousandths(cache, live).wf(),
        live_scores_least(ScoreTable::of_thousandths(cache, live), least),
{
    let table = ScoreTable::of_thousandths(cache, live);
    assert forall|i: int| 0 <= i < table.cache.len() implies 0 <= #[trigger] table.cache[i]
        <= ONE by {
        score::lemma_thousandths_bounds(cache[i] as nat);
    }
    assert forall|i: int| 0 <= i < table.live.len() implies 0 <= #[trigger] table.live[i]
        <= ONE by {
        score::lemma_thousandths_bounds(live[i] as nat);
    }
    assert forall|i: int| 1 <= i <= VALENCE_MAX implies #[trigger] table.live[i] >= least by {
        assert(live[i] >= m);
        score::lemma_nearest_ratio_keeps_side(live[i] as nat * ONE as nat, 1000, least);
    }
}

/// With the table of [greedy::optimize_vertex_cache], a triangle keeps a positive score for at
/// least 50329 adjustments.
pub proof fn lemma_positive_scores(
    indices: Seq<u32>,
    vertex_count: nat,
    k: nat,
    i: int,
    j: int,
    t: u32,
)
    requires
        mesh::is_mesh(indices, vertex_count as int),
        0 < indices.len() <= u32::MAX,
        k < mesh::face_count(indices),
        is_adjusted_in(indices, vertex_count, greedy::vertex_score_table(), k, i, j, t),
        adjustments(indices, vertex_count, greedy::vertex_score_table(), k + 1, t) <= 50329,
    ensures
        adjusted_score(indices, vertex_count, greedy::vertex_score_table(), k, i, j) > 0,
{
    lemma2_to64();
    assert(score::is_scaled(42949672, 10737418, 2));
    lemma_table_least(greedy::CACHE_SCORES@, greedy::LIVE_SCORES@, 5, 42949672);
    lemma_adjusted_score_is_positive(
        indices,
        vertex_count,
        greedy::vertex_score_table(),
        42949672,
        k,
        i,
        j,
        t,
    );
}

/// With the table of [greedy::optimize_vertex_cache_strip], a triangle keeps a positive score
/// for at least 1677720 adjustments.
pub proof fn lemma_positive_scores_strip(
    indices: Seq<u32>,
    vertex_count: nat,
    k: nat,
    i: int,
    j: int,
    t: u32,
)
    requires
        mesh::is_mesh(indices, vertex_count as int),
        0 < indices.len() <= u32::MAX,
        k < mesh::face_count(indices),
        is_adjusted_in(indices, vertex_count, greedy::vertex_score_table_strip(), k, i, j, t),
        adjustments(indices, vertex_count, greedy::vertex_score_table_strip(), k + 1, t)
            <= 1677720,
    ensures
        adjusted_score(indices, vertex_count, greedy::vertex_score_table_strip(), k, i, j) > 0,
{
    lemma2_to64();
    assert(score::is_scaled(4200477952, 16408117, 8));
    lemma_table_least(greedy::CACHE_SCORES_STRIP@, greedy::LIVE_SCORES_STRIP@, 489, 4200477952);
    lemma_adjusted_score_is_positive(
        indices,
        vertex_count,
        greedy::vertex_score_table_strip(),
        4200477952,
        k,
        i,
        j,
        t,
    );
}

} // verus!
