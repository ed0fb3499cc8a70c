//! What vertex numbers matter for.
//!
//! The statistics and the greedy order depend on which corners share a vertex, and not on the
//! numbers that the vertices have. The order for a first-in first-out cache depends on the
//! order of these numbers as well, but not on gaps between them. Vertices that no triangle uses
//! never matter.

use crate::mesh;
use crate::vertex::adjacency;
use crate::vertex::analyze;
use crate::vertex::analyze::Hardware;
use crate::vertex::analyze::Simulation;
use crate::vertex::fifo;
use crate::vertex::fifo::FifoWalk;
use crate::vertex::greedy;
use crate::vertex::greedy::ScoreState;
use crate::vertex::greedy::Walk;
use crate::vertex::score;
use crate::vertex::score::ScoreTable;
use crate::vertex::score::CACHE_SIZE_MAX;
use vstd::prelude::*;

verus! {

/// Every entry of `s` is a vertex of the buffer.
spec fn is_of_used(indices: Seq<u32>, s: Seq<u32>) -> bool {
    forall|i: int| 0 <= i < s.len() ==> indices.contains(#[trigger] s[i])
}

proof fn lemma_contains_renumbered(
    indices: Seq<u32>,
    f: spec_fn(u32) -> u32,
    s: Seq<u32>,
    v: u32,
)
    requires
        mesh::keeps_apart(indices, f),
        is_of_used(indices, s),
        indices.contains(v),
    ensures
        s.map_values(f).contains(f(v)) <==> s.contains(v),
{
    if s.contains(v) {
        let i = choose|i: int| 0 <= i < s.len() && s[i] == v;
        assert(s.map_values(f)[i] == f(v));
    }
    if s.map_values(f).contains(f(v)) {
        let i = choose|i: int| 0 <= i < s.len() && s.map_values(f)[i] == f(v);
        assert(f(s[i]) == f(v));
        assert(indices.contains(s[i]));
    }
}

/// The simulations `a` and `b` differ only by the renumbering.
spec fn is_simulation_renumbered(
    indices: Seq<u32>,
    f: spec_fn(u32) -> u32,
    a: Simulation,
    b: Simulation,
) -> bool {
    &&& is_of_used(indices, a.cache)
    &&& b.cache == a.cache.map_values(f)
    &&& b.transformed == a.transformed
    &&& b.flushed == a.flushed
    &&& b.warp == a.warp
    &&& b.primgroup == a.primgroup
}

proof fn lemma_fetch_renumbered(
    indices: Seq<u32>,
    f: spec_fn(u32) -> u32,
    hw: Hardware,
    a: Simulation,
    b: Simulation,
    v: u32,
)
    requires
        mesh::keeps_apart(indices, f),
        is_simulation_renumbered(indices, f, a, b),
        indices.contains(v),
    ensures
        is_simulation_renumbered(indices, f, a.fetch(hw, v), b.fetch(hw, f(v))),
{
    lemma_contains_renumbered(indices, f, a.cache, v);
    if !a.cache.contains(v) {
        assert(b.cache.push(f(v)) =~= a.cache.push(v).map_values(f));
        assert(b.cache.push(f(v)).drop_first() =~= a.cache.push(v).drop_first().map_values(f));
    }
}

proof fn lemma_simulated_renumbered(
    indices: Seq<u32>,
    f: spec_fn(u32) -> u32,
    hw: Hardware,
    k: nat,
)
    requires
        mesh::keeps_apart(indices, f),
        3 * k <= indices.len(),
    ensures
        is_simulation_renumbered(
            indices,
            f,
            analyze::simulated(indices, hw, k),
            analyze::simulated(mesh::renumbered(indices, f), hw, k),
        ),
    decreases k,
{
    let other = mesh::renumbered(indices, f);
    if k == 0 {
        assert(Seq::<u32>::empty().map_values(f) =~= Seq::<u32>::empty());
    } else {
        let j = (k - 1) as nat;
        lemma_simulated_renumbered(indices, f, hw, j);
        let a = analyze::simulated(indices, hw, j);
        let b = analyze::simulated(other, hw, j);
        let m = 3 * j as int;
        let x = indices[m];
        let y = indices[m + 1];
        let z = indices[m + 2];
        let corners = mesh::triangle(indices, j as int);
        let corners_b = mesh::triangle(other, j as int);
        assert(corners[0] == x && corners[1] == y && corners[2] == z);
        assert(corners_b[0] == f(x) && corners_b[1] == f(y) && corners_b[2] == f(z));
        assert(indices.contains(x) && indices.contains(y) && indices.contains(z));
        lemma_contains_renumbered(indices, f, a.cache, x);
        lemma_contains_renumbered(indices, f, a.cache, y);
        lemma_contains_renumbered(indices, f, a.cache, z);
        assert(Seq::<u32>::empty().map_values(f) =~= Seq::<u32>::empty());
        let a0 = if a.is_full_for(hw, corners) {
            a.flush()
        } else {
            a
        };
        let b0 = if b.is_full_for(hw, corners_b) {
            b.flush()
        } else {
            b
        };
        lemma_fetch_renumbered(indices, f, hw, a0, b0, x);
        let a1 = a0.fetch(hw, x);
        let b1 = b0.fetch(hw, f(x));
        lemma_fetch_renumbered(indices, f, hw, a1, b1, y);
        lemma_fetch_renumbered(indices, f, hw, a1.fetch(hw, y), b1.fetch(hw, f(y)), z);
    }
}

proof fn lemma_unique_renumbered(indices: Seq<u32>, f: spec_fn(u32) -> u32, m: int)
    requires
        mesh::keeps_apart(indices, f),
        0 <= m <= indices.len(),
    ensures
        analyze::unique_vertex_count(mesh::renumbered(indices, f).take(m))
            == analyze::unique_vertex_count(indices.take(m)),
    decreases m,
{
    let other = mesh::renumbered(indices, f);
    if m == 0 {
        assert(other.take(0) =~= indices.take(0));
    } else {
        lemma_unique_renumbered(indices, f, m - 1);
        let seen = indices.take(m - 1);
        let v = indices[m - 1];
        assert(indices.take(m) =~= seen.push(v));
        assert(other.take(m) =~= other.take(m - 1).push(f(v)));
        assert(other.take(m - 1) =~= seen.map_values(f));
        assert forall|i: int| 0 <= i < seen.len() implies indices.contains(#[trigger] seen[i]) by {
            assert(seen[i] == indices[i]);
        }
        lemma_contains_renumbered(indices, f, seen, v);
        analyze::lemma_push_set(seen, v);
        analyze::lemma_push_set(other.take(m - 1), f(v));
    }
}

/// The statistics do not depend on the numbers of the vertices, as long as different vertices
/// keep different numbers.
pub proof fn lemma_statistics_renumbered(
    indices: Seq<u32>,
    f: spec_fn(u32) -> u32,
    hw: Hardware,
)
    requires
        indices.len() % 3 == 0,
        mesh::keeps_apart(indices, f),
    ensures
        analyze::vertices_transformed(mesh::renumbered(indices, f), hw)
            == analyze::vertices_transformed(indices, hw),
        analyze::warps_executed(mesh::renumbered(indices, f), hw) == analyze::warps_executed(
            indices,
            hw,
        ),
        analyze::unique_vertex_count(mesh::renumbered(indices, f)) == analyze::unique_vertex_count(
            indices,
        ),
{
    let n = indices.len() as int;
    lemma_simulated_renumbered(indices, f, hw, mesh::face_count(indices));
    lemma_unique_renumbered(indices, f, n);
    assert(indices.take(n) =~= indices);
    assert(mesh::renumbered(indices, f).take(n) =~= mesh::renumbered(indices, f));
}

/// `a` and `b` hold the same for each vertex of the buffer, under its two numbers.
spec fn same_at_used<T>(
    indices: Seq<u32>,
    f: spec_fn(u32) -> u32,
    a: Seq<T>,
    b: Seq<T>,
) -> bool {
    forall|u: u32| #[trigger]
        indices.contains(u) ==> u < a.len() && f(u) < b.len() && b[f(u) as int] == a[u as int]
}

/// Changing what is held for one vertex of the buffer keeps `a` and `b` the same.
proof fn lemma_update_renumbered<T>(
    indices: Seq<u32>,
    f: spec_fn(u32) -> u32,
    a: Seq<T>,
    b: Seq<T>,
    v: u32,
    x: T,
)
    requires
        mesh::keeps_apart(indices, f),
        same_at_used(indices, f, a, b),
        indices.contains(v),
    ensures
        same_at_used(indices, f, a.update(v as int, x), b.update(f(v) as int, x)),
{
    let a1 = a.update(v as int, x);
    let b1 = b.update(f(v) as int, x);
    assert forall|u: u32| #[trigger] indices.contains(u) implies u < a1.len() && f(u) < b1.len()
        && b1[f(u) as int] == a1[u as int] by {
        if f(u) == f(v) {
            assert(u == v);
        }
    }
}

/// A vertex of the buffer has the same triangles under either number.
proof fn lemma_incident_renumbered(indices: Seq<u32>, f: spec_fn(u32) -> u32, v: u32, n: int)
    requires
        mesh::keeps_apart(indices, f),
        indices.contains(v),
        0 <= n <= indices.len(),
    ensures
        adjacency::incident(mesh::renumbered(indices, f), f(v) as int, n) == adjacency::incident(
            indices,
            v as int,
            n,
        ),
    decreases n,
{
    if n > 0 {
        lemma_incident_renumbered(indices, f, v, n - 1);
        let u = indices[n - 1];
        assert(indices.contains(u));
        assert(mesh::renumbered(indices, f)[n - 1] == f(u));
        if f(u) == f(v) {
            assert(u == v);
        }
    }
}

proof fn lemma_triangle_renumbered(indices: Seq<u32>, f: spec_fn(u32) -> u32, t: int)
    requires
        indices.len() % 3 == 0,
        0 <= t < mesh::face_count(indices),
    ensures
        is_of_used(indices, mesh::triangle(indices, t)),
        mesh::triangle(mesh::renumbered(indices, f), t) == mesh::triangle(indices, t).map_values(f),
        forall|c: int|
            0 <= c < 3 ==> indices.contains(#[trigger] indices[3 * t + c]) && mesh::renumbered(
                indices,
                f,
            )[3 * t + c] == f(indices[3 * t + c]),
{
    let corners = mesh::triangle(indices, t);
    assert forall|i: int| 0 <= i < corners.len() implies indices.contains(#[trigger] corners[i]) by {
        assert(corners[i] == indices[3 * t + i]);
    }
    assert(mesh::triangle(mesh::renumbered(indices, f), t) =~= corners.map_values(f));
}

proof fn lemma_filter_renumbered(
    indices: Seq<u32>,
    f: spec_fn(u32) -> u32,
    cache: Seq<u32>,
    corners: Seq<u32>,
)
    requires
        mesh::keeps_apart(indices, f),
        is_of_used(indices, cache),
        is_of_used(indices, corners),
    ensures
        ({
            let kept = cache.filter(|v: u32| !corners.contains(v));
            &&& is_of_used(indices, kept)
            &&& cache.map_values(f).filter(|v: u32| !corners.map_values(f).contains(v))
                == kept.map_values(f)
        }),
    decreases cache.len(),
{
    reveal(Seq::filter);
    let keep = |v: u32| !corners.contains(v);
    let keep_b = |v: u32| !corners.map_values(f).contains(v);
    if cache.len() > 0 {
        let front = cache.drop_last();
        let v = cache.last();
        assert forall|i: int| 0 <= i < front.len() implies indices.contains(#[trigger] front[i]) by {
            assert(front[i] == cache[i]);
        }
        lemma_filter_renumbered(indices, f, front, corners);
        lemma_contains_renumbered(indices, f, corners, v);
        assert(cache.map_values(f).drop_last() =~= front.map_values(f));
        assert(cache.map_values(f).last() == f(v));
        let kept = front.filter(keep);
        assert(kept.push(v).map_values(f) =~= kept.map_values(f).push(f(v)));
    } else {
        assert(cache.map_values(f).filter(keep_b) =~= cache.filter(keep).map_values(f));
    }
}

proof fn lemma_touched_renumbered(
    indices: Seq<u32>,
    f: spec_fn(u32) -> u32,
    cache: Seq<u32>,
    corners: Seq<u32>,
)
    requires
        mesh::keeps_apart(indices, f),
        is_of_used(indices, cache),
        is_of_used(indices, corners),
    ensures
        is_of_used(indices, greedy::touched(cache, corners)),
        greedy::touched(cache.map_values(f), corners.map_values(f)) == greedy::touched(
            cache,
            corners,
        ).map_values(f),
{
    lemma_filter_renumbered(indices, f, cache, corners);
    assert(greedy::touched(cache.map_values(f), corners.map_values(f)) =~= greedy::touched(
        cache,
        corners,
    ).map_values(f));
}

proof fn lemma_detached_renumbered(
    indices: Seq<u32>,
    f: spec_fn(u32) -> u32,
    a: Seq<Seq<u32>>,
    b: Seq<Seq<u32>>,
    t: u32,
)
    requires
        indices.len() % 3 == 0,
        mesh::keeps_apart(indices, f),
        same_at_used(indices, f, a, b),
        t < mesh::face_count(indices),
    ensures
        same_at_used(
            indices,
            f,
            adjacency::detached(indices, a, t),
            adjacency::detached(mesh::renumbered(indices, f), b, t),
        ),
{
    let other = mesh::renumbered(indices, f);
    lemma_triangle_renumbered(indices, f, t as int);
    let x = indices[3 * t + 0];
    let y = indices[3 * t + 1];
    let z = indices[3 * t + 2];
    assert(indices.contains(x) && indices.contains(y) && indices.contains(z));
    lemma_update_renumbered(indices, f, a, b, x, adjacency::without(a[x as int], t));
    let a1 = adjacency::detached_at(indices, a, t, 0);
    let b1 = adjacency::detached_at(other, b, t, 0);
    lemma_update_renumbered(indices, f, a1, b1, y, adjacency::without(a1[y as int], t));
    let a2 = adjacency::detached_at(indices, a1, t, 1);
    let b2 = adjacency::detached_at(other, b1, t, 1);
    lemma_update_renumbered(indices, f, a2, b2, z, adjacency::without(a2[z as int], t));
}

/// The rescorings `a` and `b` differ only by the renumbering.
spec fn is_scoring_renumbered(
    indices: Seq<u32>,
    f: spec_fn(u32) -> u32,
    a: ScoreState,
    b: ScoreState,
) -> bool {
    &&& same_at_used(indices, f, a.vertex, b.vertex)
    &&& b.triangle == a.triangle
    &&& b.best == a.best
    &&& b.best_score == a.best_score
}

/// Adjusting triangles neither reads nor changes the scores of vertices.
proof fn lemma_adjusted_all_apart(
    a: ScoreState,
    b: ScoreState,
    list: Seq<u32>,
    n: int,
    diff: int,
)
    requires
        b.triangle == a.triangle,
        b.best == a.best,
        b.best_score == a.best_score,
    ensures
        a.adjusted_all(list, n, diff).vertex == a.vertex,
        b.adjusted_all(list, n, diff).vertex == b.vertex,
        b.adjusted_all(list, n, diff).triangle == a.adjusted_all(list, n, diff).triangle,
        b.adjusted_all(list, n, diff).best == a.adjusted_all(list, n, diff).best,
        b.adjusted_all(list, n, diff).best_score == a.adjusted_all(list, n, diff).best_score,
    decreases n,
{
    if n > 0 {
        lemma_adjusted_all_apart(a, b, list, n - 1, diff);
    }
}

proof fn lemma_rescored_renumbered(
    indices: Seq<u32>,
    f: spec_fn(u32) -> u32,
    table: ScoreTable,
    a: ScoreState,
    b: ScoreState,
    live_a: Seq<Seq<u32>>,
    live_b: Seq<Seq<u32>>,
    cache: Seq<u32>,
    n: int,
)
    requires
        mesh::keeps_apart(indices, f),
        is_scoring_renumbered(indices, f, a, b),
        same_at_used(indices, f, live_a, live_b),
        is_of_used(indices, cache),
        0 <= n <= cache.len(),
    ensures
        is_scoring_renumbered(
            indices,
            f,
            a.rescored(table, live_a, cache, n),
            b.rescored(table, live_b, cache.map_values(f), n),
        ),
    decreases n,
{
    if n > 0 {
        lemma_rescored_renumbered(indices, f, table, a, b, live_a, live_b, cache, n - 1);
        let a0 = a.rescored(table, live_a, cache, n - 1);
        let b0 = b.rescored(table, live_b, cache.map_values(f), n - 1);
        let v = cache[n - 1];
        assert(indices.contains(v));
        assert(live_b[f(v) as int] == live_a[v as int]);
        assert(b0.vertex[f(v) as int] == a0.vertex[v as int]);
        let list = live_a[v as int];
        let position = if n - 1 < CACHE_SIZE_MAX { n - 1 } else { -1 };
        let new_score = table.score(position, list.len() as int);
        let diff = score::nearest(new_score - a0.vertex[v as int]);
        lemma_update_renumbered(indices, f, a0.vertex, b0.vertex, v, new_score);
        lemma_adjusted_all_apart(
            ScoreState { vertex: a0.vertex.update(v as int, new_score), ..a0 },
            ScoreState { vertex: b0.vertex.update(f(v) as int, new_score), ..b0 },
            list,
            list.len() as int,
            diff,
        );
    }
}

/// The greedy walks `a` and `b` differ only by the renumbering.
spec fn is_walk_renumbered(indices: Seq<u32>, f: spec_fn(u32) -> u32, a: Walk, b: Walk) -> bool {
    &&& b.order == a.order
    &&& is_of_used(indices, a.cache)
    &&& b.cache == a.cache.map_values(f)
    &&& same_at_used(indices, f, a.live, b.live)
    &&& same_at_used(indices, f, a.vertex_scores, b.vertex_scores)
    &&& b.triangle_scores == a.triangle_scores
    &&& b.cursor == a.cursor
    &&& b.next == a.next
}

proof fn lemma_greedy_start_renumbered(
    indices: Seq<u32>,
    f: spec_fn(u32) -> u32,
    vertex_count: nat,
    other_count: nat,
    table: ScoreTable,
)
    requires
        mesh::is_mesh(indices, vertex_count as int),
        mesh::is_mesh(mesh::renumbered(indices, f), other_count as int),
        mesh::keeps_apart(indices, f),
    ensures
        is_walk_renumbered(
            indices,
            f,
            greedy::walk_start(indices, vertex_count, table),
            greedy::walk_start(mesh::renumbered(indices, f), other_count, table),
        ),
{
    let other = mesh::renumbered(indices, f);
    let a = greedy::walk_start(indices, vertex_count, table);
    let b = greedy::walk_start(other, other_count, table);
    assert forall|u: u32| #[trigger] indices.contains(u) implies {
        &&& u < vertex_count
        &&& f(u) < other_count
        &&& b.live[f(u) as int] == a.live[u as int]
        &&& b.vertex_scores[f(u) as int] == a.vertex_scores[u as int]
    } by {
        let i = choose|i: int| 0 <= i < indices.len() && indices[i] == u;
        assert(indices[i] < vertex_count);
        assert(other[i] == f(u));
        lemma_incident_renumbered(indices, f, u, indices.len() as int);
    }
    assert forall|t: int| 0 <= t < mesh::face_count(indices) implies #[trigger] b.triangle_scores[t]
        == a.triangle_scores[t] by {
        lemma_triangle_renumbered(indices, f, t);
        let x = indices[3 * t + 0];
        let y = indices[3 * t + 1];
        let z = indices[3 * t + 2];
        assert(indices.contains(x) && indices.contains(y) && indices.contains(z));
    }
    assert(b.triangle_scores =~= a.triangle_scores);
    assert(b.cache =~= a.cache.map_values(f));
}

proof fn lemma_greedy_walk_renumbered(
    indices: Seq<u32>,
    f: spec_fn(u32) -> u32,
    vertex_count: nat,
    other_count: nat,
    table: ScoreTable,
    k: nat,
)
    requires
        mesh::is_mesh(indices, vertex_count as int),
        mesh::is_mesh(mesh::renumbered(indices, f), other_count as int),
        0 < indices.len() <= u32::MAX,
        mesh::keeps_apart(indices, f),
        k <= mesh::face_count(indices),
    ensures
        is_walk_renumbered(
            indices,
            f,
            greedy::walk_after(indices, vertex_count, table, k),
            greedy::walk_after(mesh::renumbered(indices, f), other_count, table, k),
        ),
    decreases k,
{
    if k == 0 {
        lemma_greedy_start_renumbered(indices, f, vertex_count, other_count, table);
    } else {
        let other = mesh::renumbered(indices, f);
        let j = (k - 1) as nat;
        lemma_greedy_walk_renumbered(indices, f, vertex_count, other_count, table, j);
        greedy::lemma_walk_after(indices, vertex_count, table, j);
        let a = greedy::walk_after(indices, vertex_count, table, j);
        let b = greedy::walk_after(other, other_count, table, j);
        let t = a.next->0;
        lemma_triangle_renumbered(indices, f, t as int);
        let corners = mesh::triangle(indices, t as int);
        lemma_touched_renumbered(indices, f, a.cache, corners);
        let cache = greedy::touched(a.cache, corners);
        lemma_detached_renumbered(indices, f, a.live, b.live, t);
        lemma_rescored_renumbered(
            indices,
            f,
            table,
            ScoreState {
                vertex: a.vertex_scores,
                triangle: a.triangle_scores.update(t as int, 0),
                best: None,
                best_score: 0,
            },
            ScoreState {
                vertex: b.vertex_scores,
                triangle: b.triangle_scores.update(t as int, 0),
                best: None,
                best_score: 0,
            },
            adjacency::detached(indices, a.live, t),
            adjacency::detached(other, b.live, t),
            cache,
            cache.len() as int,
        );
        assert(greedy::retained(cache.map_values(f)) =~= greedy::retained(cache).map_values(f));
    }
}

/// The greedy order depends neither on the numbers of the vertices, as long as different
/// vertices keep different numbers, nor on vertices that no triangle uses: the buffer reordered
/// after a renumbering is the reordered buffer renumbered.
pub proof fn lemma_greedy_order_renumbered(
    indices: Seq<u32>,
    f: spec_fn(u32) -> u32,
    vertex_count: nat,
    other_count: nat,
    table: ScoreTable,
)
    requires
        mesh::is_mesh(indices, vertex_count as int),
        mesh::is_mesh(mesh::renumbered(indices, f), other_count as int),
        indices.len() <= u32::MAX,
        mesh::keeps_apart(indices, f),
    ensures
        ({
            let other = mesh::renumbered(indices, f);
            let order = greedy::greedy_order(indices, vertex_count, table);
            &&& greedy::greedy_order(other, other_count, table) == order
            &&& mesh::reordered(other, order) == mesh::renumbered(
                mesh::reordered(indices, order),
                f,
            )
        }),
{
    if indices.len() > 0 {
        let n = mesh::face_count(indices);
        lemma_greedy_walk_renumbered(indices, f, vertex_count, other_count, table, n);
    }
    greedy::lemma_greedy_order_is_permutation(indices, vertex_count, table);
    mesh::lemma_reordered_renumbered(
        indices,
        greedy::greedy_order(indices, vertex_count, table),
        f,
    );
}

/// A strictly increasing renumbering keeps different vertices apart.
proof fn lemma_order_keeps_apart(indices: Seq<u32>, f: spec_fn(u32) -> u32)
    requires
        mesh::keeps_order(indices, f),
    ensures
        mesh::keeps_apart(indices, f),
{
    assert forall|u: u32, v: u32|
        indices.contains(u) && indices.contains(v) && #[trigger] f(u) == #[trigger] f(
            v,
        ) implies u == v by {
        if u < v {
            assert(f(u) < f(v));
        }
        if v < u {
            assert(f(v) < f(u));
        }
    }
}

/// The walks `a` and `b` differ only by the renumbering, apart from where they go next.
spec fn is_fan_renumbered(
    indices: Seq<u32>,
    f: spec_fn(u32) -> u32,
    a: FifoWalk,
    b: FifoWalk,
) -> bool {
    &&& b.order == a.order
    &&& same_at_used(indices, f, a.live, b.live)
    &&& same_at_used(indices, f, a.stamps, b.stamps)
    &&& b.time == a.time
    &&& is_of_used(indices, a.stack)
    &&& b.stack == a.stack.map_values(f)
}

/// The walks `a` and `b` differ only by the renumbering.
spec fn is_fifo_renumbered(
    indices: Seq<u32>,
    f: spec_fn(u32) -> u32,
    a: FifoWalk,
    b: FifoWalk,
) -> bool {
    &&& is_fan_renumbered(indices, f, a, b)
    &&& match a.next {
        Some(v) => indices.contains(v) && b.next == Some(f(v)),
        None => b.next is None,
    }
}

proof fn lemma_visited_renumbered(
    indices: Seq<u32>,
    f: spec_fn(u32) -> u32,
    cache_size: int,
    a: FifoWalk,
    b: FifoWalk,
    v: u32,
)
    requires
        mesh::keeps_apart(indices, f),
        is_fan_renumbered(indices, f, a, b),
        indices.contains(v),
    ensures
        is_fan_renumbered(
            indices,
            f,
            a.visited(v as int, cache_size),
            b.visited(f(v) as int, cache_size),
        ),
{
    lemma_update_renumbered(indices, f, a.live, b.live, v, a.live[v as int] - 1);
    lemma_update_renumbered(indices, f, a.stamps, b.stamps, v, a.time);
}

proof fn lemma_emitted_renumbered(
    indices: Seq<u32>,
    f: spec_fn(u32) -> u32,
    cache_size: int,
    a: FifoWalk,
    b: FifoWalk,
    t: u32,
)
    requires
        indices.len() % 3 == 0,
        mesh::keeps_apart(indices, f),
        is_fan_renumbered(indices, f, a, b),
        t < mesh::face_count(indices),
    ensures
        is_fan_renumbered(
            indices,
            f,
            a.emitted(indices, t, cache_size),
            b.emitted(mesh::renumbered(indices, f), t, cache_size),
        ),
{
    let other = mesh::renumbered(indices, f);
    lemma_triangle_renumbered(indices, f, t as int);
    let corners = mesh::triangle(indices, t as int);
    let x = indices[3 * t + 0];
    let y = indices[3 * t + 1];
    let z = indices[3 * t + 2];
    assert(indices.contains(x) && indices.contains(y) && indices.contains(z));
    let a0 = FifoWalk { order: a.order.push(t), stack: a.stack + corners, ..a };
    let b0 = FifoWalk {
        order: b.order.push(t),
        stack: b.stack + mesh::triangle(other, t as int),
        ..b
    };
    assert(b0.stack =~= a0.stack.map_values(f));
    assert forall|i: int| 0 <= i < a0.stack.len() implies indices.contains(#[trigger] a0.stack[i]) by {
        if i < a.stack.len() {
            assert(a0.stack[i] == a.stack[i]);
        } else {
            assert(a0.stack[i] == corners[i - a.stack.len()]);
        }
    }
    lemma_visited_renumbered(indices, f, cache_size, a0, b0, x);
    let a1 = a0.visited(x as int, cache_size);
    let b1 = b0.visited(f(x) as int, cache_size);
    lemma_visited_renumbered(indices, f, cache_size, a1, b1, y);
    let a2 = a1.visited(y as int, cache_size);
    let b2 = b1.visited(f(y) as int, cache_size);
    lemma_visited_renumbered(indices, f, cache_size, a2, b2, z);
}

proof fn lemma_fanned_renumbered(
    indices: Seq<u32>,
    f: spec_fn(u32) -> u32,
    cache_size: int,
    a: FifoWalk,
    b: FifoWalk,
    list: Seq<u32>,
    n: int,
)
    requires
        indices.len() % 3 == 0,
        mesh::keeps_apart(indices, f),
        is_fan_renumbered(indices, f, a, b),
        forall|i: int| 0 <= i < list.len() ==> #[trigger] list[i] < mesh::face_count(indices),
        0 <= n <= list.len(),
    ensures
        is_fan_renumbered(
            indices,
            f,
            a.fanned(indices, list, n, cache_size),
            b.fanned(mesh::renumbered(indices, f), list, n, cache_size),
        ),
    decreases n,
{
    if n > 0 {
        lemma_fanned_renumbered(indices, f, cache_size, a, b, list, n - 1);
        lemma_emitted_renumbered(
            indices,
            f,
            cache_size,
            a.fanned(indices, list, n - 1, cache_size),
            b.fanned(mesh::renumbered(indices, f), list, n - 1, cache_size),
            list[n - 1],
        );
    }
}

proof fn lemma_best_candidate_renumbered(
    indices: Seq<u32>,
    f: spec_fn(u32) -> u32,
    cache_size: int,
    a: FifoWalk,
    b: FifoWalk,
    candidates: Seq<u32>,
    n: int,
)
    requires
        is_fan_renumbered(indices, f, a, b),
        is_of_used(indices, candidates),
        0 <= n <= candidates.len(),
    ensures
        -1 <= fifo::best_candidate(candidates, n, a.live, a.stamps, a.time, cache_size) < n,
        fifo::best_candidate(candidates.map_values(f), n, b.live, b.stamps, b.time, cache_size)
            == fifo::best_candidate(candidates, n, a.live, a.stamps, a.time, cache_size),
    decreases n,
{
    if n > 0 {
        lemma_best_candidate_renumbered(indices, f, cache_size, a, b, candidates, n - 1);
        assert(indices.contains(candidates[n - 1]));
        let best = fifo::best_candidate(candidates, n - 1, a.live, a.stamps, a.time, cache_size);
        if best >= 0 {
            assert(indices.contains(candidates[best]));
        }
    }
}

proof fn lemma_last_live_renumbered(
    indices: Seq<u32>,
    f: spec_fn(u32) -> u32,
    a: FifoWalk,
    b: FifoWalk,
    n: int,
)
    requires
        is_fan_renumbered(indices, f, a, b),
        0 <= n <= a.stack.len(),
    ensures
        fifo::last_live(b.stack, n, b.live) == fifo::last_live(a.stack, n, a.live),
    decreases n,
{
    if n > 0 {
        lemma_last_live_renumbered(indices, f, a, b, n - 1);
        assert(indices.contains(a.stack[n - 1]));
    }
}

/// `v` is the first vertex with triangles left, or `n` if none has.
spec fn is_least_live(live: Seq<int>, v: int) -> bool {
    &&& 0 <= v <= live.len()
    &&& v < live.len() ==> live[v] > 0
    &&& forall|u: int| 0 <= u < v ==> #[trigger] live[u] <= 0
}

/// A strictly increasing renumbering takes the first vertex with triangles left to the first
/// one.
proof fn lemma_least_live_renumbered(
    indices: Seq<u32>,
    f: spec_fn(u32) -> u32,
    vertex_count: nat,
    other_count: nat,
    cache_size: int,
    a: FifoWalk,
    b: FifoWalk,
    v: int,
    v_b: int,
)
    requires
        mesh::keeps_order(indices, f),
        fifo::fan_inv(indices, vertex_count, cache_size, a),
        fifo::fan_inv(mesh::renumbered(indices, f), other_count, cache_size, b),
        same_at_used(indices, f, a.live, b.live),
        is_least_live(a.live, v),
        is_least_live(b.live, v_b),
    ensures
        v < vertex_count <==> v_b < other_count,
        v < vertex_count ==> v <= u32::MAX && indices.contains(v as u32) && v_b == f(v as u32),
{
    let other = mesh::renumbered(indices, f);
    if v < vertex_count {
        fifo::lemma_live_is_used(indices, vertex_count, cache_size, a, v);
        let u = v as u32;
        assert(indices.contains(u));
        assert(b.live[f(u) as int] > 0);
        assert(v_b <= f(u));
    }
    if v_b < other_count {
        fifo::lemma_live_is_used(other, other_count, cache_size, b, v_b);
        let i = choose|i: int| 0 <= i < other.len() && other[i] == v_b as u32;
        let u = indices[i];
        assert(indices.contains(u));
        assert(f(u) == v_b as u32);
        assert(a.live[u as int] > 0);
        assert(v <= u);
        if v < u {
            assert(f(v as u32) < f(u));
        }
    }
}

/// Where a walk restarts in input order, it does so at the first vertex with triangles left.
proof fn lemma_restart(
    indices: Seq<u32>,
    vertex_count: nat,
    cache_size: int,
    w: FifoWalk,
    k: nat,
)
    requires
        fifo::walk_inv(indices, vertex_count, cache_size, w, k),
        w.cursor < vertex_count ==> w.live[w.cursor] > 0 && w.next == Some(w.cursor as u32),
        w.cursor >= vertex_count ==> w.next is None,
    ensures
        is_least_live(w.live, w.cursor),
{
    if w.cursor < vertex_count {
        fifo::lemma_live_is_used(indices, vertex_count, cache_size, w, w.cursor);
    }
    assert forall|u: int| 0 <= u < w.cursor implies #[trigger] w.live[u] <= 0 by {
        assert(w.live[u] == 0 || w.next == Some(u as u32));
    }
}

/// A strictly increasing renumbering takes the number `u32::MAX`, and no other, to itself, if
/// both buffers have it or neither has.
proof fn lemma_top_number(indices: Seq<u32>, f: spec_fn(u32) -> u32, v: u32)
    requires
        mesh::keeps_order(indices, f),
        indices.contains(u32::MAX) <==> mesh::renumbered(indices, f).contains(u32::MAX),
        indices.contains(v),
    ensures
        v == u32::MAX <==> f(v) == u32::MAX,
{
    let other = mesh::renumbered(indices, f);
    if v == u32::MAX {
        let i = choose|i: int| 0 <= i < other.len() && other[i] == u32::MAX;
        let u = indices[i];
        assert(indices.contains(u));
        assert(f(u) == u32::MAX);
        if u < v {
            assert(f(u) < f(v));
        }
    } else if f(v) == u32::MAX {
        let i = choose|i: int| 0 <= i < indices.len() && indices[i] == v;
        assert(other[i] == u32::MAX);
        assert(f(v) < f(u32::MAX));
    }
}

proof fn lemma_fifo_step_renumbered(
    indices: Seq<u32>,
    f: spec_fn(u32) -> u32,
    vertex_count: nat,
    other_count: nat,
    cache_size: int,
    a: FifoWalk,
    b: FifoWalk,
    k: nat,
    k_b: nat,
)
    requires
        mesh::is_mesh(indices, vertex_count as int),
        mesh::is_mesh(mesh::renumbered(indices, f), other_count as int),
        0 < indices.len() <= u32::MAX,
        0 <= cache_size,
        mesh::keeps_order(indices, f),
        indices.contains(u32::MAX) <==> mesh::renumbered(indices, f).contains(u32::MAX),
        fifo::walk_inv(indices, vertex_count, cache_size, a, k),
        fifo::walk_inv(mesh::renumbered(indices, f), other_count, cache_size, b, k_b),
        is_fifo_renumbered(indices, f, a, b),
    ensures
        is_fifo_renumbered(
            indices,
            f,
            fifo::walk_step(indices, cache_size, a),
            fifo::walk_step(mesh::renumbered(indices, f), cache_size, b),
        ),
{
    if a.next is Some {
        let other = mesh::renumbered(indices, f);
        let n = indices.len() as int;
        lemma_order_keeps_apart(indices, f);
        let v = a.next->0;
        let list = adjacency::incident(indices, v as int, n);
        lemma_incident_renumbered(indices, f, v, n);
        fifo::lemma_incident(indices, v as int);
        lemma_fanned_renumbered(indices, f, cache_size, a, b, list, list.len() as int);
        fifo::lemma_fanned(indices, vertex_count, cache_size, a, list, list.len() as int);
        fifo::lemma_fanned(other, other_count, cache_size, b, list, list.len() as int);
        let fa = a.fanned(indices, list, list.len() as int, cache_size);
        let fb = b.fanned(other, list, list.len() as int, cache_size);
        let candidates = fa.stack.skip(a.stack.len() as int);
        assert(fb.stack.skip(b.stack.len() as int) =~= candidates.map_values(f));
        assert forall|i: int| 0 <= i < candidates.len() implies indices.contains(
            #[trigger] candidates[i],
        ) by {
            assert(candidates[i] == fa.stack[a.stack.len() + i]);
        }
        lemma_best_candidate_renumbered(
            indices,
            f,
            cache_size,
            fa,
            fb,
            candidates,
            candidates.len() as int,
        );
        let best = fifo::best_candidate(
            candidates,
            candidates.len() as int,
            fa.live,
            fa.stamps,
            fa.time,
            cache_size,
        );
        let m = fa.stack.len() as int;
        lemma_last_live_renumbered(indices, f, fa, fb, m);
        fifo::lemma_last_live(fa.stack, m, fa.live);
        let top = fifo::last_live(fa.stack, m, fa.live);
        let sa = fifo::walk_step(indices, cache_size, a);
        let sb = fifo::walk_step(other, cache_size, b);
        if best >= 0 {
            assert(indices.contains(candidates[best]));
            lemma_top_number(indices, f, candidates[best]);
        }
        if best >= 0 && candidates[best] != u32::MAX {
        } else if top >= 0 {
            assert(indices.contains(fa.stack[top]));
            assert(fb.stack.take(top) =~= fa.stack.take(top).map_values(f));
        } else {
            fifo::lemma_walk_step(indices, vertex_count, cache_size, a, k);
            fifo::lemma_walk_step(other, other_count, cache_size, b, k_b);
            fifo::lemma_first_live(fa.live, fa.cursor, fa.live.len() as int);
            fifo::lemma_first_live(fb.live, fb.cursor, fb.live.len() as int);
            lemma_restart(indices, vertex_count, cache_size, sa, k + 1);
            lemma_restart(other, other_count, cache_size, sb, k_b + 1);
            lemma_least_live_renumbered(
                indices,
                f,
                vertex_count,
                other_count,
                cache_size,
                sa,
                sb,
                sa.cursor,
                sb.cursor,
            );
            assert(sb.stack =~= sa.stack.map_values(f));
        }
    }
}

/// How many steps a walk takes before it goes to a vertex with triangles for the first time.
spec fn lead(indices: Seq<u32>) -> nat {
    if indices.contains(0) {
        0
    } else {
        1
    }
}

/// Then nothing has happened yet, and the walk goes to the first vertex with triangles.
proof fn lemma_lead(indices: Seq<u32>, vertex_count: nat, cache_size: int)
    requires
        mesh::is_mesh(indices, vertex_count as int),
        0 < indices.len() <= u32::MAX,
        0 <= cache_size,
    ensures
        ({
            let start = fifo::walk_start(indices, vertex_count, cache_size);
            let w = fifo::walk_after(indices, vertex_count, cache_size, lead(indices));
            &&& w.order == start.order
            &&& w.live == start.live
            &&& w.stamps == start.stamps
            &&& w.time == start.time
            &&& w.stack == start.stack
            &&& w.next is Some
            &&& w.next->0 < vertex_count
            &&& is_least_live(w.live, w.next->0 as int)
        }),
{
    let n = indices.len() as int;
    let start = fifo::walk_start(indices, vertex_count, cache_size);
    let w = fifo::walk_after(indices, vertex_count, cache_size, lead(indices));
    if indices.contains(0) {
        let i = choose|i: int| 0 <= i < n && indices[i] == 0;
        assert(indices[i] < vertex_count);
        lemma_corner_is_listed(indices, i);
    } else {
        assert(indices[0] < vertex_count);
        assert forall|i: int| 0 <= i < n implies #[trigger] indices[i] != 0 by {
            assert(indices.contains(indices[i]));
        }
        adjacency::lemma_no_corner(indices, 0, n);
        assert(fifo::walk_after(indices, vertex_count, cache_size, 0) == start);
        assert(w == fifo::walk_step(indices, cache_size, start));
        assert(start.stack.skip(0) =~= start.stack);
        fifo::lemma_walk_after(indices, vertex_count, cache_size, 0);
        fifo::lemma_walk_after(indices, vertex_count, cache_size, 1);
        fifo::lemma_first_live(start.live, 1, vertex_count as int);
        lemma_restart(indices, vertex_count, cache_size, w, 1);
        lemma_corner_is_listed(indices, 0);
        assert(w.live[indices[0] as int] > 0);
        fifo::lemma_live_is_used(indices, vertex_count, cache_size, w, w.cursor);
    }
}

/// A vertex at some corner has a triangle.
proof fn lemma_corner_is_listed(indices: Seq<u32>, i: int)
    requires
        indices.len() % 3 == 0,
        indices.len() <= u32::MAX,
        0 <= i < indices.len(),
    ensures
        adjacency::incident(indices, indices[i] as int, indices.len() as int).len() > 0,
{
    let v = indices[i] as int;
    let n = indices.len() as int;
    let t = (i / 3) as u32;
    let list = adjacency::incident(indices, v, n);
    adjacency::lemma_incident_count(indices, v, t, n);
    list.to_multiset_ensures();
    assert(i == 3 * t || i == 3 * t + 1 || i == 3 * t + 2);
    assert(list.contains(t));
}

proof fn lemma_fifo_walk_renumbered(
    indices: Seq<u32>,
    f: spec_fn(u32) -> u32,
    vertex_count: nat,
    other_count: nat,
    cache_size: int,
    k: nat,
)
    requires
        mesh::is_mesh(indices, vertex_count as int),
        mesh::is_mesh(mesh::renumbered(indices, f), other_count as int),
        0 < indices.len() <= u32::MAX,
        0 <= cache_size,
        mesh::keeps_order(indices, f),
        indices.contains(u32::MAX) <==> mesh::renumbered(indices, f).contains(u32::MAX),
    ensures
        ({
            let other = mesh::renumbered(indices, f);
            is_fifo_renumbered(
                indices,
                f,
                fifo::walk_after(indices, vertex_count, cache_size, lead(indices) + k),
                fifo::walk_after(other, other_count, cache_size, lead(other) + k),
            )
        }),
    decreases k,
{
    let other = mesh::renumbered(indices, f);
    lemma_order_keeps_apart(indices, f);
    if k == 0 {
        lemma_lead(indices, vertex_count, cache_size);
        lemma_lead(other, other_count, cache_size);
        let a = fifo::walk_after(indices, vertex_count, cache_size, lead(indices));
        let b = fifo::walk_after(other, other_count, cache_size, lead(other));
        fifo::lemma_walk_after(indices, vertex_count, cache_size, lead(indices));
        fifo::lemma_walk_after(other, other_count, cache_size, lead(other));
        assert forall|u: u32| #[trigger] indices.contains(u) implies {
            &&& u < vertex_count
            &&& f(u) < other_count
            &&& b.live[f(u) as int] == a.live[u as int]
            &&& b.stamps[f(u) as int] == a.stamps[u as int]
        } by {
            let i = choose|i: int| 0 <= i < indices.len() && indices[i] == u;
            assert(indices[i] < vertex_count);
            assert(other[i] == f(u));
            lemma_incident_renumbered(indices, f, u, indices.len() as int);
        }
        lemma_least_live_renumbered(
            indices,
            f,
            vertex_count,
            other_count,
            cache_size,
            a,
            b,
            a.next->0 as int,
            b.next->0 as int,
        );
        assert(b.stack =~= a.stack.map_values(f));
    } else {
        let j = (k - 1) as nat;
        let ka = lead(indices) + j;
        let kb = lead(other) + j;
        lemma_fifo_walk_renumbered(indices, f, vertex_count, other_count, cache_size, j);
        fifo::lemma_walk_after(indices, vertex_count, cache_size, ka);
        fifo::lemma_walk_after(other, other_count, cache_size, kb);
        lemma_fifo_step_renumbered(
            indices,
            f,
            vertex_count,
            other_count,
            cache_size,
            fifo::walk_after(indices, vertex_count, cache_size, ka),
            fifo::walk_after(other, other_count, cache_size, kb),
            ka,
            kb,
        );
    }
}

/// The order for a first-in first-out cache does not change with the numbers of the vertices, as
/// long as these keep their order, nor with gaps between the numbers or vertices that no
/// triangle uses: the buffer reordered after such a renumbering is the reordered buffer
/// renumbered. The number `u32::MAX`, which stands for no neighbour, must be in both buffers or
/// in neither.
pub proof fn lemma_fifo_order_renumbered(
    indices: Seq<u32>,
    f: spec_fn(u32) -> u32,
    vertex_count: nat,
    other_count: nat,
    cache_size: int,
)
    requires
        mesh::is_mesh(indices, vertex_count as int),
        mesh::is_mesh(mesh::renumbered(indices, f), other_count as int),
        indices.len() <= u32::MAX,
        0 <= cache_size,
        mesh::keeps_order(indices, f),
        indices.contains(u32::MAX) <==> mesh::renumbered(indices, f).contains(u32::MAX),
    ensures
        ({
            let other = mesh::renumbered(indices, f);
            let order = fifo::fifo_order(indices, vertex_count, cache_size);
            &&& fifo::fifo_order(other, other_count, cache_size) == order
            &&& mesh::reordered(other, order) == mesh::renumbered(
                mesh::reordered(indices, order),
                f,
            )
        }),
{
    let other = mesh::renumbered(indices, f);
    let order = fifo::fifo_order(indices, vertex_count, cache_size);
    fifo::lemma_fifo_order_is_permutation(indices, vertex_count, cache_size);
    fifo::lemma_fifo_order_is_permutation(other, other_count, cache_size);
    mesh::lemma_reordered_renumbered(indices, order, f);
    if indices.len() > 0 {
        // both walks have ended by then
        let m = mesh::face_count(indices) + 1;
        lemma_fifo_walk_renumbered(indices, f, vertex_count, other_count, cache_size, m);
        fifo::lemma_walk_after(indices, vertex_count, cache_size, m);
        fifo::lemma_walk_after(other, other_count, cache_size, m);
        fifo::lemma_walk_ended(indices, vertex_count, cache_size, m, lead(indices) + m);
        fifo::lemma_walk_ended(other, other_count, cache_size, m, lead(other) + m);
    } else {
        assert(fifo::fifo_order(other, other_count, cache_size) =~= order);
    }
}

} // verus!
