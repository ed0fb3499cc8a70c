//! What the greedy order satisfies.

use crate::mesh;
use crate::vertex::adjacency;
use crate::vertex::drift;
use crate::vertex::fifo;
use crate::vertex::fifo_order;
use crate::vertex::greedy;
use crate::vertex::greedy::ScoreState;
use crate::vertex::greedy::Walk;
use crate::vertex::score;
use crate::vertex::score::ScoreTable;
use crate::vertex::score::CACHE_SIZE_MAX;
use crate::vertex::score::VALENCE_MAX;
use vstd::prelude::*;
use vstd::set_lib::*;

verus! {

/// Position `i` of the cache comes before position `m`, or is the same and entry `j` of its list
/// comes before entry `n`.
pub open spec fn is_earlier(i: int, j: int, m: int, n: int) -> bool {
    i < m || (i == m && j < n)
}

/// Entry `j` of the list of the vertex at position `i` of the cache.
spec fn is_entry(live: Seq<Seq<u32>>, cache: Seq<u32>, i: int, j: int) -> bool {
    0 <= i < cache.len() && 0 <= j < live[cache[i] as int].len()
}

/// The score that entry `j` of the list of position `i` gets in a rescoring that starts with `s`.
spec fn met(
    s: ScoreState,
    table: ScoreTable,
    live: Seq<Seq<u32>>,
    cache: Seq<u32>,
    i: int,
    j: int,
) -> int {
    drift::placing_score(s.rescored(table, live, cache, i), table, live, cache[i] as int, i, j)
}

/// The best triangle of `p` is the first one with the highest positive score among the entries
/// before entry `n` of position `m`.
spec fn is_best_before(
    p: ScoreState,
    s: ScoreState,
    table: ScoreTable,
    live: Seq<Seq<u32>>,
    cache: Seq<u32>,
    m: int,
    n: int,
) -> bool {
    &&& p.best_score >= 0
    &&& forall|i: int, j: int|
        is_entry(live, cache, i, j) && is_earlier(i, j, m, n) ==> #[trigger] met(
            s,
            table,
            live,
            cache,
            i,
            j,
        ) <= p.best_score
    &&& match p.best {
        None => p.best_score == 0,
        Some(u) => p.best_score > 0 && exists|a: int, b: int|
            #![trigger met(s, table, live, cache, a, b)]
            is_entry(live, cache, a, b) && is_earlier(a, b, m, n) && live[cache[a] as int][b] == u
                && met(s, table, live, cache, a, b) == p.best_score && forall|i: int, j: int|
                is_entry(live, cache, i, j) && is_earlier(i, j, a, b) ==> #[trigger] met(
                    s,
                    table,
                    live,
                    cache,
                    i,
                    j,
                ) < p.best_score,
    }
}

/// The rescoring of position `m`, with the first `n` entries of its list adjusted.
spec fn placing(
    s: ScoreState,
    table: ScoreTable,
    live: Seq<Seq<u32>>,
    cache: Seq<u32>,
    m: int,
    n: int,
) -> ScoreState {
    let before = s.rescored(table, live, cache, m);
    let v = cache[m] as int;
    let position = if m < CACHE_SIZE_MAX {
        m
    } else {
        -1
    };
    let new_score = table.score(position, live[v].len() as int);
    let diff = score::nearest(new_score - before.vertex[v]);
    ScoreState { vertex: before.vertex.update(v, new_score), ..before }.adjusted_all(
        live[v],
        n,
        diff,
    )
}

proof fn lemma_placing_best(
    s: ScoreState,
    table: ScoreTable,
    live: Seq<Seq<u32>>,
    cache: Seq<u32>,
    m: int,
    n: int,
)
    requires
        0 <= m < cache.len(),
        0 <= n <= live[cache[m] as int].len(),
        forall|i: int|
            0 <= i < live[cache[m] as int].len() ==> #[trigger] live[cache[m] as int][i]
                < s.rescored(table, live, cache, m).triangle.len(),
        is_best_before(s.rescored(table, live, cache, m), s, table, live, cache, m, 0),
    ensures
        is_best_before(placing(s, table, live, cache, m, n), s, table, live, cache, m, n),
        placing(s, table, live, cache, m, n).triangle.len() == s.rescored(
            table,
            live,
            cache,
            m,
        ).triangle.len(),
    decreases n,
{
    if n > 0 {
        lemma_placing_best(s, table, live, cache, m, n - 1);
        let p = placing(s, table, live, cache, m, n - 1);
        let q = placing(s, table, live, cache, m, n);
        let t = live[cache[m] as int][n - 1];
        let x = met(s, table, live, cache, m, n - 1);
        assert(x == q.triangle[t as int]);
        assert(is_entry(live, cache, m, n - 1));
        assert forall|i: int, j: int|
            is_entry(live, cache, i, j) && is_earlier(i, j, m, n) implies #[trigger] met(
            s,
            table,
            live,
            cache,
            i,
            j,
        ) <= q.best_score by {
            if !is_earlier(i, j, m, n - 1) {
                assert(i == m && j == n - 1);
            }
        }
        if p.best_score < x {
            assert(q.best == Some(t) && q.best_score == x);
            assert(is_entry(live, cache, m, n - 1) && is_earlier(m, n - 1, m, n));
        } else {
            assert(q.best == p.best && q.best_score == p.best_score);
            if p.best is Some {
                let (a, b) = choose|a: int, b: int|
                    #![trigger met(s, table, live, cache, a, b)]
                    is_entry(live, cache, a, b) && is_earlier(a, b, m, n - 1)
                        && live[cache[a] as int][b] == p.best->0 && met(
                        s,
                        table,
                        live,
                        cache,
                        a,
                        b,
                    ) == p.best_score && forall|i: int, j: int|
                        is_entry(live, cache, i, j) && is_earlier(i, j, a, b) ==> #[trigger] met(
                            s,
                            table,
                            live,
                            cache,
                            i,
                            j,
                        ) < p.best_score;
                assert(met(s, table, live, cache, a, b) == q.best_score);
            }
        }
    }
}

proof fn lemma_rescored_best(
    s: ScoreState,
    table: ScoreTable,
    live: Seq<Seq<u32>>,
    cache: Seq<u32>,
    m: int,
)
    requires
        0 <= m <= cache.len(),
        s.best is None,
        s.best_score == 0,
        forall|i: int| 0 <= i < cache.len() ==> #[trigger] cache[i] < live.len(),
        forall|v: int, i: int|
            0 <= v < live.len() && 0 <= i < live[v].len() ==> #[trigger] live[v][i]
                < s.triangle.len(),
    ensures
        is_best_before(s.rescored(table, live, cache, m), s, table, live, cache, m, 0),
        s.rescored(table, live, cache, m).triangle.len() == s.triangle.len(),
    decreases m,
{
    if m > 0 {
        lemma_rescored_best(s, table, live, cache, m - 1);
        let n = live[cache[m - 1] as int].len() as int;
        assert(cache[m - 1] < live.len());
        lemma_placing_best(s, table, live, cache, m - 1, n);
        let p = placing(s, table, live, cache, m - 1, n);
        assert(p == s.rescored(table, live, cache, m));
        assert forall|i: int, j: int|
            is_entry(live, cache, i, j) && is_earlier(i, j, m, 0) implies #[trigger] met(
            s,
            table,
            live,
            cache,
            i,
            j,
        ) <= p.best_score by {
            assert(is_earlier(i, j, m - 1, n));
        }
        if p.best is Some {
            let (a, b) = choose|a: int, b: int|
                #![trigger met(s, table, live, cache, a, b)]
                is_entry(live, cache, a, b) && is_earlier(a, b, m - 1, n)
                    && live[cache[a] as int][b] == p.best->0 && met(s, table, live, cache, a, b)
                    == p.best_score && forall|i: int, j: int|
                    is_entry(live, cache, i, j) && is_earlier(i, j, a, b) ==> #[trigger] met(
                        s,
                        table,
                        live,
                        cache,
                        i,
                        j,
                    ) < p.best_score;
            assert(met(s, table, live, cache, a, b) == p.best_score);
            assert(is_earlier(a, b, m, 0));
        }
    }
}

/// In step `k` of the walk, triangle `s` is left and shares a vertex with the triangle that the
/// step emits or with the vertices in the cache before it.
pub open spec fn is_around(indices: Seq<u32>, w: Walk, s: u32) -> bool {
    let t = w.next->0;
    &&& s < mesh::face_count(indices)
    &&& s != t
    &&& !w.order.contains(s)
    &&& exists|c: int|
        0 <= c < 3 && (w.cache.contains(#[trigger] indices[3 * s + c]) || mesh::triangle(
            indices,
            t as int,
        ).contains(indices[3 * s + c]))
}

proof fn lemma_touched_contains(cache: Seq<u32>, corners: Seq<u32>, v: u32)
    ensures
        greedy::touched(cache, corners).contains(v) <==> cache.contains(v) || corners.contains(v),
{
    let keep = |u: u32| !corners.contains(u);
    let kept = cache.filter(keep);
    let all = greedy::touched(cache, corners);
    if corners.contains(v) {
        let i = choose|i: int| 0 <= i < corners.len() && corners[i] == v;
        assert(all[i] == v);
    } else if cache.contains(v) {
        let i = choose|i: int| 0 <= i < cache.len() && cache[i] == v;
        cache.lemma_filter_contains(keep, i);
        let j = choose|j: int| 0 <= j < kept.len() && kept[j] == v;
        assert(all[corners.len() + j] == v);
    }
    if all.contains(v) {
        let i = choose|i: int| 0 <= i < all.len() && all[i] == v;
        if i >= corners.len() {
            assert(kept[i - corners.len()] == v);
            assert(kept.contains(v));
            cache.lemma_filter_contains_rev(keep, v);
        }
    }
}

/// The triangles that a step adjusts are those around what it touches.
pub proof fn lemma_adjusted_are_around(
    indices: Seq<u32>,
    vertex_count: nat,
    table: ScoreTable,
    k: nat,
    s: u32,
)
    requires
        mesh::is_mesh(indices, vertex_count as int),
        0 < indices.len() <= u32::MAX,
        k < mesh::face_count(indices),
    ensures
        is_around(indices, greedy::walk_after(indices, vertex_count, table, k), s) <==> exists|
            i: int,
            j: int,
        | #[trigger] drift::is_adjusted_in(indices, vertex_count, table, k, i, j, s),
{
    let w = greedy::walk_after(indices, vertex_count, table, k);
    greedy::lemma_walk_after(indices, vertex_count, table, k);
    greedy::lemma_walk_step(indices, vertex_count, table, w);
    let t = w.next->0;
    let n = indices.len() as int;
    let order = w.order.push(t);
    let corners = mesh::triangle(indices, t as int);
    let cache = drift::next_cache(indices, w);
    let live = drift::next_live(indices, w);
    adjacency::lemma_detached_live(indices, w.live, w.order, t);
    assert(order[w.order.len() as int] == t);
    if is_around(indices, w, s) {
        let c = choose|c: int|
            0 <= c < 3 && (w.cache.contains(#[trigger] indices[3 * s + c]) || corners.contains(
                indices[3 * s + c],
            ));
        let v = indices[3 * s + c];
        lemma_touched_contains(w.cache, corners, v);
        let i = choose|i: int| 0 <= i < cache.len() && cache[i] == v;
        assert(!order.contains(s)) by {
            if order.contains(s) {
                let p = choose|p: int| 0 <= p < order.len() && order[p] == s;
                if p < w.order.len() {
                    assert(w.order[p] == s);
                }
            }
        }
        assert(v < vertex_count);
        let list = live[v as int];
        assert(list.to_multiset().count(s) == adjacency::corners_at(
            indices,
            v as int,
            s as int,
            n,
        ));
        list.to_multiset_ensures();
        assert(list.contains(s));
        let j = choose|j: int| 0 <= j < list.len() && list[j] == s;
        assert(drift::is_adjusted_in(indices, vertex_count, table, k, i, j, s));
    }
    if exists|i: int, j: int|
        #[trigger] drift::is_adjusted_in(indices, vertex_count, table, k, i, j, s) {
        let (i, j) = choose|i: int, j: int|
            #[trigger] drift::is_adjusted_in(indices, vertex_count, table, k, i, j, s);
        let v = cache[i];
        assert(cache.contains(v));
        lemma_touched_contains(w.cache, corners, v);
        adjacency::lemma_listed(indices, live, order, v as int, j);
        assert(!w.order.contains(s)) by {
            if w.order.contains(s) {
                let p = choose|p: int| 0 <= p < w.order.len() && w.order[p] == s;
                assert(order[p] == s);
            }
        }
        let list = live[v as int];
        list.to_multiset_ensures();
        assert(list.contains(s));
        assert(list.to_multiset().count(s) == adjacency::corners_at(
            indices,
            v as int,
            s as int,
            n,
        ));
        assert(indices[3 * s + 0] == v || indices[3 * s + 1] == v || indices[3 * s + 2] == v);
        let c: int = if indices[3 * s + 0] == v {
            0
        } else if indices[3 * s + 1] == v {
            1
        } else {
            2
        };
        assert(indices[3 * s + c] == v);
    }
}

/// Step `k` of the greedy walk goes on at the triangle with the highest score.
///
/// If the step gives some triangle around what it touches a positive score, it goes on at the
/// first one to which it gives the highest score of all. If not, it goes on at the first
/// triangle left in input order, and the walk ends when none is left.
pub proof fn lemma_step_goes_on(
    indices: Seq<u32>,
    vertex_count: nat,
    table: ScoreTable,
    k: nat,
)
    requires
        mesh::is_mesh(indices, vertex_count as int),
        0 < indices.len() <= u32::MAX,
        k < mesh::face_count(indices),
    ensures
        ({
            let a = greedy::walk_after(indices, vertex_count, table, k + 1);
            if exists|i: int, j: int, s: u32|
                #[trigger] drift::is_adjusted_in(indices, vertex_count, table, k, i, j, s)
                    && drift::adjusted_score(indices, vertex_count, table, k, i, j) > 0 {
                a.next is Some && exists|m: int, n: int|
                    #[trigger] drift::is_adjusted_in(
                        indices,
                        vertex_count,
                        table,
                        k,
                        m,
                        n,
                        a.next->0,
                    ) && forall|i: int, j: int, s: u32| #[trigger]
                        drift::is_adjusted_in(indices, vertex_count, table, k, i, j, s) ==> {
                            let best = drift::adjusted_score(
                                indices,
                                vertex_count,
                                table,
                                k,
                                m,
                                n,
                            );
                            let other = drift::adjusted_score(
                                indices,
                                vertex_count,
                                table,
                                k,
                                i,
                                j,
                            );
                            other <= best && (is_earlier(i, j, m, n) ==> other < best)
                        }
            } else {
                match a.next {
                    Some(u) => u < mesh::face_count(indices) && !a.order.contains(u) && forall|
                        s: u32,
                    | s < u ==> #[trigger] a.order.contains(s),
                    None => forall|s: u32|
                        s < mesh::face_count(indices) ==> #[trigger] a.order.contains(s),
                }
            }
        }),
{
    let w = greedy::walk_after(indices, vertex_count, table, k);
    let a = greedy::walk_after(indices, vertex_count, table, k + 1);
    greedy::lemma_walk_after(indices, vertex_count, table, k);
    greedy::lemma_walk_after(indices, vertex_count, table, k + 1);
    greedy::lemma_walk_step(indices, vertex_count, table, w);
    assert(a == greedy::walk_step(indices, table, w));
    let t = w.next->0;
    let order = w.order.push(t);
    let cache = drift::next_cache(indices, w);
    let live = drift::next_live(indices, w);
    let s0 = drift::next_scores(w);
    adjacency::lemma_detached_live(indices, w.live, w.order, t);
    assert forall|v: int, i: int| 0 <= v < live.len() && 0 <= i < live[v].len() implies
        #[trigger] live[v][i] < s0.triangle.len() by {
        adjacency::lemma_listed(indices, live, order, v, i);
    }
    let c = cache.len() as int;
    lemma_rescored_best(s0, table, live, cache, c);
    let p = s0.rescored(table, live, cache, c);
    assert forall|i: int, j: int, s: u32| #[trigger]
        drift::is_adjusted_in(indices, vertex_count, table, k, i, j, s) implies {
        &&& is_entry(live, cache, i, j)
        &&& is_earlier(i, j, c, 0)
        &&& live[cache[i] as int][j] == s
        &&& met(s0, table, live, cache, i, j) == drift::adjusted_score(
            indices,
            vertex_count,
            table,
            k,
            i,
            j,
        )
        &&& met(s0, table, live, cache, i, j) <= p.best_score
    } by {
    }
    if p.best is Some {
        let u = p.best->0;
        let (m, n) = choose|m: int, n: int|
            #![trigger met(s0, table, live, cache, m, n)]
            is_entry(live, cache, m, n) && is_earlier(m, n, c, 0) && live[cache[m] as int][n] == u
                && met(s0, table, live, cache, m, n) == p.best_score && forall|i: int, j: int|
                is_entry(live, cache, i, j) && is_earlier(i, j, m, n) ==> #[trigger] met(
                    s0,
                    table,
                    live,
                    cache,
                    i,
                    j,
                ) < p.best_score;
        assert(drift::is_adjusted_in(indices, vertex_count, table, k, m, n, u));
        assert(a.next == Some(u));
    } else {
        assert forall|s: u32| s < a.cursor implies #[trigger] a.order.contains(s) by {
        }
    }
}

/// The order is that of the walk: it begins with triangle 0, and entry `k` is the triangle that
/// step `k` emits.
pub proof fn lemma_order_of_steps(
    indices: Seq<u32>,
    vertex_count: nat,
    table: ScoreTable,
    k: nat,
)
    requires
        mesh::is_mesh(indices, vertex_count as int),
        0 < indices.len() <= u32::MAX,
        k < mesh::face_count(indices),
    ensures
        ({
            let w = greedy::walk_after(indices, vertex_count, table, k);
            let order = greedy::greedy_order(indices, vertex_count, table);
            &&& order[0] == 0
            &&& order.take(k as int) == w.order
            &&& w.next == Some(order[k as int])
        }),
{
    lemma_prefix(indices, vertex_count, table, k, mesh::face_count(indices));
    lemma_prefix(indices, vertex_count, table, 0, mesh::face_count(indices));
}

proof fn lemma_prefix(indices: Seq<u32>, vertex_count: nat, table: ScoreTable, k: nat, m: nat)
    requires
        mesh::is_mesh(indices, vertex_count as int),
        0 < indices.len() <= u32::MAX,
        k < m <= mesh::face_count(indices),
    ensures
        ({
            let w = greedy::walk_after(indices, vertex_count, table, k);
            let later = greedy::walk_after(indices, vertex_count, table, m);
            &&& later.order.len() == m
            &&& later.order.take(k as int) == w.order
            &&& w.next == Some(later.order[k as int])
        }),
    decreases m,
{
    let j = (m - 1) as nat;
    let b = greedy::walk_after(indices, vertex_count, table, j);
    greedy::lemma_walk_after(indices, vertex_count, table, j);
    greedy::lemma_walk_step(indices, vertex_count, table, b);
    let later = greedy::walk_after(indices, vertex_count, table, m);
    assert(later.order == b.order.push(b.next->0));
    if k < j {
        lemma_prefix(indices, vertex_count, table, k, j);
    }
    assert(later.order.take(k as int) =~= b.order.take(k as int));
    assert(b.order.take(j as int) =~= b.order);
}

/// With the table of [greedy::optimize_vertex_cache], whatever the size of the mesh, the walk
/// stays around what it has just touched as long as some triangle is left there that has not
/// been adjusted tens of thousands of times.
pub proof fn lemma_order_stays_around(indices: Seq<u32>, vertex_count: nat, k: nat, s: u32)
    requires
        mesh::is_mesh(indices, vertex_count as int),
        0 < indices.len() <= u32::MAX,
        k < mesh::face_count(indices),
        is_around(
            indices,
            greedy::walk_after(indices, vertex_count, greedy::vertex_score_table(), k),
            s,
        ),
        drift::adjustments(indices, vertex_count, greedy::vertex_score_table(), k + 1, s) <= 50329,
    ensures
        ({
            let table = greedy::vertex_score_table();
            let w = greedy::walk_after(indices, vertex_count, table, k);
            let order = greedy::greedy_order(indices, vertex_count, table);
            k + 1 < order.len() && is_around(indices, w, order[k as int + 1])
        }),
{
    let table = greedy::vertex_score_table();
    lemma_adjusted_are_around(indices, vertex_count, table, k, s);
    let (i, j) = choose|i: int, j: int|
        #[trigger] drift::is_adjusted_in(indices, vertex_count, table, k, i, j, s);
    drift::lemma_positive_scores(indices, vertex_count, k, i, j, s);
    lemma_goes_around(indices, vertex_count, table, k, i, j, s);
}

/// With the table of [greedy::optimize_vertex_cache_strip], whatever the size of the mesh, the
/// walk stays around what it has just touched as long as some triangle is left there that has
/// not been adjusted more than a million times.
pub proof fn lemma_order_stays_around_strip(indices: Seq<u32>, vertex_count: nat, k: nat, s: u32)
    requires
        mesh::is_mesh(indices, vertex_count as int),
        0 < indices.len() <= u32::MAX,
        k < mesh::face_count(indices),
        is_around(
            indices,
            greedy::walk_after(indices, vertex_count, greedy::vertex_score_table_strip(), k),
            s,
        ),
        drift::adjustments(indices, vertex_count, greedy::vertex_score_table_strip(), k + 1, s)
            <= 1677720,
    ensures
        ({
            let table = greedy::vertex_score_table_strip();
            let w = greedy::walk_after(indices, vertex_count, table, k);
            let order = greedy::greedy_order(indices, vertex_count, table);
            k + 1 < order.len() && is_around(indices, w, order[k as int + 1])
        }),
{
    let table = greedy::vertex_score_table_strip();
    lemma_adjusted_are_around(indices, vertex_count, table, k, s);
    let (i, j) = choose|i: int, j: int|
        #[trigger] drift::is_adjusted_in(indices, vertex_count, table, k, i, j, s);
    drift::lemma_positive_scores_strip(indices, vertex_count, k, i, j, s);
    lemma_goes_around(indices, vertex_count, table, k, i, j, s);
}

/// Where a step gives a triangle around what it touches a positive score, the next triangle of
/// the order is such a triangle.
pub proof fn lemma_goes_around(
    indices: Seq<u32>,
    vertex_count: nat,
    table: ScoreTable,
    k: nat,
    i: int,
    j: int,
    s: u32,
)
    requires
        mesh::is_mesh(indices, vertex_count as int),
        0 < indices.len() <= u32::MAX,
        k < mesh::face_count(indices),
        drift::is_adjusted_in(indices, vertex_count, table, k, i, j, s),
        drift::adjusted_score(indices, vertex_count, table, k, i, j) > 0,
    ensures
        ({
            let w = greedy::walk_after(indices, vertex_count, table, k);
            let order = greedy::greedy_order(indices, vertex_count, table);
            k + 1 < order.len() && is_around(indices, w, order[k as int + 1])
        }),
{
    let n = mesh::face_count(indices);
    let a = greedy::walk_after(indices, vertex_count, table, k + 1);
    lemma_step_goes_on(indices, vertex_count, table, k);
    let u = a.next->0;
    lemma_adjusted_are_around(indices, vertex_count, table, k, u);
    greedy::lemma_walk_after(indices, vertex_count, table, k + 1);
    greedy::lemma_greedy_order_is_permutation(indices, vertex_count, table);
    lemma_order_of_steps(indices, vertex_count, table, k + 1);
}

/// The lists of the walk count the corners left at each vertex.
pub proof fn lemma_live_is_corners_left(
    indices: Seq<u32>,
    vertex_count: nat,
    table: ScoreTable,
    k: nat,
    v: int,
)
    requires
        mesh::is_mesh(indices, vertex_count as int),
        0 < indices.len() <= u32::MAX,
        k <= mesh::face_count(indices),
        0 <= v < vertex_count,
    ensures
        ({
            let w = greedy::walk_after(indices, vertex_count, table, k);
            w.live[v].len() == mesh::corners_left(indices, w.order, v)
        }),
    decreases k,
{
    let n = indices.len() as int;
    let list = adjacency::incident(indices, v, n);
    let w = greedy::walk_after(indices, vertex_count, table, k);
    fifo_order::lemma_corners_waiting(indices, w.order, v, n);
    if k == 0 {
        fifo::lemma_waiting_none(list);
    } else {
        let j = (k - 1) as nat;
        let b = greedy::walk_after(indices, vertex_count, table, j);
        lemma_live_is_corners_left(indices, vertex_count, table, j, v);
        greedy::lemma_walk_after(indices, vertex_count, table, j);
        greedy::lemma_walk_step(indices, vertex_count, table, b);
        let t = b.next->0;
        fifo_order::lemma_corners_waiting(indices, b.order, v, n);
        fifo::lemma_waiting_push(list, b.order, t);
        adjacency::lemma_incident_count(indices, v, t, n);
        adjacency::lemma_detached_len(indices, b.live, b.order, t, v);
    }
}

/// No triangle has a vertex at two corners.
pub open spec fn has_distinct_corners(indices: Seq<u32>) -> bool {
    forall|t: int|
        0 <= t < mesh::face_count(indices) ==> #[trigger] mesh::triangle(
            indices,
            t,
        ).no_duplicates()
}

/// Corner `p` of the triangles drawn is more recent than corner `q`: its triangle is later, or
/// it is the same and the corner comes first in it.
pub open spec fn is_more_recent(p: int, q: int) -> bool {
    p / 3 > q / 3 || (p / 3 == q / 3 && p % 3 < q % 3)
}

/// Among the corners `out` that were drawn, one at vertex `u` is more recent than all at `v`.
pub open spec fn is_fresher(out: Seq<u32>, u: u32, v: u32) -> bool {
    exists|p: int|
        0 <= p < out.len() && #[trigger] out[p] == u && forall|q: int|
            0 <= q < out.len() && #[trigger] out[q] == v ==> is_more_recent(p, q)
}

/// `cache` holds the most recent vertices of `out`, the most recent ones first: as many as the
/// cache has positions, or all of them.
pub open spec fn is_most_recent(out: Seq<u32>, cache: Seq<u32>) -> bool {
    &&& cache.len() <= CACHE_SIZE_MAX
    &&& forall|i: int| 0 <= i < cache.len() ==> out.contains(#[trigger] cache[i])
    &&& forall|i: int, j: int|
        0 <= i < j < cache.len() ==> is_fresher(out, #[trigger] cache[i], #[trigger] cache[j])
    &&& forall|v: u32| #[trigger]
        out.contains(v) && !cache.contains(v) ==> cache.len() == CACHE_SIZE_MAX && forall|i: int|
            0 <= i < cache.len() ==> is_fresher(out, #[trigger] cache[i], v)
}

/// Filtering keeps the order of what is left.
proof fn lemma_filter_order(s: Seq<u32>, keep: spec_fn(u32) -> bool, i: int, j: int)
    requires
        0 <= i < j < s.filter(keep).len(),
    ensures
        exists|a: int, b: int|
            0 <= a < b < s.len() && #[trigger] s[a] == s.filter(keep)[i] && #[trigger] s[b]
                == s.filter(keep)[j] && keep(s[a]) && keep(s[b]),
    decreases s.len(),
{
    reveal(Seq::filter);
    let front = s.drop_last();
    let kept = front.filter(keep);
    if j < kept.len() {
        lemma_filter_order(front, keep, i, j);
        let (a, b) = choose|a: int, b: int|
            0 <= a < b < front.len() && #[trigger] front[a] == kept[i] && #[trigger] front[b]
                == kept[j] && keep(front[a]) && keep(front[b]);
        assert(s[a] == kept[i] && s[b] == kept[j]);
    } else {
        let b = s.len() - 1;
        assert(kept.contains(kept[i]));
        lemma_filter_source(front, keep, kept[i]);
        let a = choose|a: int| 0 <= a < front.len() && #[trigger] front[a] == kept[i] && keep(
            front[a],
        );
        assert(s[a] == kept[i] && s[b] == s.filter(keep)[j]);
    }
}

proof fn lemma_filter_source(s: Seq<u32>, keep: spec_fn(u32) -> bool, v: u32)
    requires
        s.filter(keep).contains(v),
    ensures
        exists|a: int| 0 <= a < s.len() && #[trigger] s[a] == v && keep(s[a]),
    decreases s.len(),
{
    reveal(Seq::filter);
    if s.len() > 0 {
        let front = s.drop_last();
        let kept = front.filter(keep);
        let i = choose|i: int| 0 <= i < s.filter(keep).len() && s.filter(keep)[i] == v;
        if i < kept.len() {
            assert(kept[i] == v);
            assert(kept.contains(v));
            lemma_filter_source(front, keep, v);
            let a = choose|a: int| 0 <= a < front.len() && #[trigger] front[a] == v && keep(
                front[a],
            );
            assert(s[a] == v);
        } else {
            assert(s[s.len() - 1] == v);
        }
    }
}

/// At most as many vertices leave `cache` as there are corners, if it holds none twice.
proof fn lemma_touched_len(cache: Seq<u32>, corners: Seq<u32>)
    requires
        cache.no_duplicates(),
    ensures
        greedy::touched(cache, corners).len() >= cache.len(),
{
    let keep = |u: u32| !corners.contains(u);
    let kept = cache.filter(keep);
    let all = corners.to_set().union(kept.to_set());
    cache.unique_seq_to_set();
    corners.lemma_cardinality_of_set();
    kept.lemma_cardinality_of_set();
    assert(cache.to_set().subset_of(all)) by {
        assert forall|v: u32| cache.contains(v) implies all.contains(v) by {
            if !corners.contains(v) {
                let i = choose|i: int| 0 <= i < cache.len() && cache[i] == v;
                cache.lemma_filter_contains(keep, i);
            }
        }
    }
    lemma_len_union(corners.to_set(), kept.to_set());
    lemma_len_subset(cache.to_set(), all);
}

/// What was fresher stays so when other vertices are drawn.
proof fn lemma_fresher_stays(out: Seq<u32>, corners: Seq<u32>, u: u32, v: u32)
    requires
        is_fresher(out, u, v),
        !corners.contains(v),
    ensures
        is_fresher(out + corners, u, v),
{
    let after = out + corners;
    let p = choose|p: int|
        0 <= p < out.len() && #[trigger] out[p] == u && forall|q: int|
            0 <= q < out.len() && #[trigger] out[q] == v ==> is_more_recent(p, q);
    assert(after[p] == u);
    assert forall|q: int| 0 <= q < after.len() && #[trigger] after[q] == v implies is_more_recent(
        p,
        q,
    ) by {
        if q < out.len() {
            assert(out[q] == v);
        } else {
            assert(corners[q - out.len()] == v);
        }
    }
}

/// A corner just drawn is fresher than any vertex not drawn with it, and than the corners behind
/// it.
proof fn lemma_corner_fresher(out: Seq<u32>, corners: Seq<u32>, c: int, v: u32)
    requires
        out.len() % 3 == 0,
        corners.len() == 3,
        0 <= c < 3,
        forall|d: int| 0 <= d <= c ==> #[trigger] corners[d] != v,
    ensures
        is_fresher(out + corners, corners[c], v),
{
    let after = out + corners;
    let p = out.len() + c;
    assert(after[p] == corners[c]);
    assert(p / 3 == out.len() / 3 && p % 3 == c);
    assert forall|q: int| 0 <= q < after.len() && #[trigger] after[q] == v implies is_more_recent(
        p,
        q,
    ) by {
        if q < out.len() {
            assert(q / 3 < out.len() / 3);
        } else {
            let d = q - out.len();
            assert(corners[d] == v);
            assert(d > c);
            assert(q / 3 == out.len() / 3 && q % 3 == d);
        }
    }
}

/// Touching the corners of a triangle keeps the cache that of the most recent vertices.
proof fn lemma_most_recent_step(out: Seq<u32>, cache: Seq<u32>, corners: Seq<u32>)
    requires
        out.len() % 3 == 0,
        corners.len() == 3,
        corners.no_duplicates(),
        is_most_recent(out, cache),
    ensures
        is_most_recent(out + corners, greedy::retained(greedy::touched(cache, corners))),
        greedy::touched(cache, corners).no_duplicates(),
{
    let after = out + corners;
    let all = greedy::touched(cache, corners);
    let keep = |u: u32| !corners.contains(u);
    let kept = cache.filter(keep);
    let next = greedy::retained(all);
    assert forall|i: int, j: int| 0 <= i < j < cache.len() implies cache[i] != cache[j] by {
        assert(is_fresher(out, cache[i], cache[j]));
        let p = choose|p: int|
            0 <= p < out.len() && #[trigger] out[p] == cache[i] && forall|q: int|
                0 <= q < out.len() && #[trigger] out[q] == cache[j] ==> is_more_recent(p, q);
        if cache[i] == cache[j] {
            assert(is_more_recent(p, p));
        }
    }
    lemma_touched_len(cache, corners);
    assert forall|i: int, j: int| 0 <= i < j < all.len() implies is_fresher(
        after,
        #[trigger] all[i],
        #[trigger] all[j],
    ) by {
        if i < 3 {
            if j >= 3 {
                assert(kept.contains(kept[j - 3]));
                lemma_filter_source(cache, keep, kept[j - 3]);
            }
            assert forall|d: int| 0 <= d <= i implies #[trigger] corners[d] != all[j] by {
                assert(corners.contains(corners[d]));
            }
            lemma_corner_fresher(out, corners, i, all[j]);
        } else {
            lemma_filter_order(cache, keep, i - 3, j - 3);
            let (a, b) = choose|a: int, b: int|
                0 <= a < b < cache.len() && #[trigger] cache[a] == kept[i - 3] && #[trigger] cache[b]
                    == kept[j - 3] && keep(cache[a]) && keep(cache[b]);
            assert(is_fresher(out, cache[a], cache[b]));
            lemma_fresher_stays(out, corners, all[i], all[j]);
        }
    }
    assert forall|i: int, j: int| 0 <= i < j < all.len() implies all[i] != all[j] by {
        assert(is_fresher(after, all[i], all[j]));
        let p = choose|p: int|
            0 <= p < after.len() && #[trigger] after[p] == all[i] && forall|q: int|
                0 <= q < after.len() && #[trigger] after[q] == all[j] ==> is_more_recent(p, q);
        if all[i] == all[j] {
            assert(is_more_recent(p, p));
        }
    }
    assert forall|i: int| 0 <= i < next.len() implies after.contains(#[trigger] next[i]) by {
        assert(next[i] == all[i]);
        if i < 3 {
            assert(after[out.len() + i] == all[i]);
        } else {
            assert(kept.contains(kept[i - 3]));
            lemma_filter_source(cache, keep, kept[i - 3]);
            assert(out.contains(all[i]));
            let p = choose|p: int| 0 <= p < out.len() && out[p] == all[i];
            assert(after[p] == all[i]);
        }
    }
    assert forall|v: u32| #[trigger] after.contains(v) && !next.contains(v) implies next.len()
        == CACHE_SIZE_MAX && forall|i: int|
        0 <= i < next.len() ==> is_fresher(after, #[trigger] next[i], v) by {
        lemma_touched_contains(cache, corners, v);
        if all.contains(v) {
            let j = choose|j: int| 0 <= j < all.len() && all[j] == v;
            if j < next.len() {
                assert(next[j] == v);
            }
            assert forall|i: int| 0 <= i < next.len() implies is_fresher(
                after,
                #[trigger] next[i],
                v,
            ) by {
                assert(is_fresher(after, all[i], all[j]));
            }
        } else {
            let p = choose|p: int| 0 <= p < after.len() && after[p] == v;
            if p >= out.len() {
                assert(corners[p - out.len()] == v);
            }
            assert(out[p] == v);
            assert(out.contains(v) && !cache.contains(v));
            assert forall|i: int| 0 <= i < next.len() implies is_fresher(
                after,
                #[trigger] next[i],
                v,
            ) by {
                if i < 3 {
                    assert forall|d: int| 0 <= d <= i implies #[trigger] corners[d] != v by {
                        assert(corners.contains(corners[d]));
                    }
                    lemma_corner_fresher(out, corners, i, v);
                } else {
                    assert(kept.contains(kept[i - 3]));
                    lemma_filter_source(cache, keep, kept[i - 3]);
                    let a = choose|a: int|
                        0 <= a < cache.len() && #[trigger] cache[a] == kept[i - 3] && keep(
                            cache[a],
                        );
                    assert(is_fresher(out, cache[a], v));
                    lemma_fresher_stays(out, corners, cache[a], v);
                }
            }
        }
    }
}

/// The modelled cache of the walk holds the most recent vertices of the triangles emitted.
pub proof fn lemma_cache_is_most_recent(
    indices: Seq<u32>,
    vertex_count: nat,
    table: ScoreTable,
    k: nat,
)
    requires
        mesh::is_mesh(indices, vertex_count as int),
        0 < indices.len() <= u32::MAX,
        k <= mesh::face_count(indices),
        has_distinct_corners(indices),
    ensures
        ({
            let w = greedy::walk_after(indices, vertex_count, table, k);
            is_most_recent(mesh::reordered(indices, w.order), w.cache)
        }),
    decreases k,
{
    let w = greedy::walk_after(indices, vertex_count, table, k);
    if k == 0 {
        assert(mesh::reordered(indices, w.order) =~= Seq::<u32>::empty());
    } else {
        let j = (k - 1) as nat;
        let b = greedy::walk_after(indices, vertex_count, table, j);
        lemma_cache_is_most_recent(indices, vertex_count, table, j);
        greedy::lemma_walk_after(indices, vertex_count, table, j);
        greedy::lemma_walk_step(indices, vertex_count, table, b);
        let t = b.next->0;
        fifo_order::lemma_reordered_push(indices, b.order, t);
        assert(mesh::triangle(indices, t as int).no_duplicates());
        lemma_most_recent_step(
            mesh::reordered(indices, b.order),
            b.cache,
            mesh::triangle(indices, t as int),
        );
    }
}

/// `u` stands before `v` in `s`.
pub open spec fn is_in_order(s: Seq<u32>, u: u32, v: u32) -> bool {
    exists|p: int, q: int| 0 <= p < q < s.len() && #[trigger] s[p] == u && #[trigger] s[q] == v
}

/// What a step does to the modelled cache, in any mesh: the corners of the triangle emitted come
/// first, vertices that were in the cache before follow in the order they had, and none of them
/// leaves unless the cache is full.
pub proof fn lemma_step_touches(
    indices: Seq<u32>,
    vertex_count: nat,
    table: ScoreTable,
    k: nat,
)
    requires
        mesh::is_mesh(indices, vertex_count as int),
        0 < indices.len() <= u32::MAX,
        k < mesh::face_count(indices),
    ensures
        ({
            let w = greedy::walk_after(indices, vertex_count, table, k);
            let a = greedy::walk_after(indices, vertex_count, table, k + 1);
            let corners = mesh::triangle(indices, w.next->0 as int);
            &&& 3 <= a.cache.len() <= CACHE_SIZE_MAX
            &&& forall|c: int| 0 <= c < 3 ==> #[trigger] a.cache[c] == corners[c]
            &&& forall|i: int|
                3 <= i < a.cache.len() ==> w.cache.contains(#[trigger] a.cache[i])
                    && !corners.contains(a.cache[i])
            &&& forall|i: int, j: int|
                3 <= i < j < a.cache.len() ==> is_in_order(
                    w.cache,
                    #[trigger] a.cache[i],
                    #[trigger] a.cache[j],
                )
            &&& forall|v: u32| #[trigger]
                w.cache.contains(v) && !a.cache.contains(v) ==> a.cache.len() == CACHE_SIZE_MAX
        }),
{
    let w = greedy::walk_after(indices, vertex_count, table, k);
    let a = greedy::walk_after(indices, vertex_count, table, k + 1);
    greedy::lemma_walk_after(indices, vertex_count, table, k);
    let corners = mesh::triangle(indices, w.next->0 as int);
    let all = greedy::touched(w.cache, corners);
    let keep = |u: u32| !corners.contains(u);
    let kept = w.cache.filter(keep);
    assert(a == greedy::walk_step(indices, table, w));
    assert(a.cache == greedy::retained(all));
    assert forall|i: int| 3 <= i < a.cache.len() implies w.cache.contains(#[trigger] a.cache[i])
        && !corners.contains(a.cache[i]) by {
        assert(a.cache[i] == kept[i - 3]);
        assert(kept.contains(kept[i - 3]));
        lemma_filter_source(w.cache, keep, kept[i - 3]);
    }
    assert forall|i: int, j: int| 3 <= i < j < a.cache.len() implies is_in_order(
        w.cache,
        #[trigger] a.cache[i],
        #[trigger] a.cache[j],
    ) by {
        lemma_filter_order(w.cache, keep, i - 3, j - 3);
        assert(a.cache[i] == kept[i - 3] && a.cache[j] == kept[j - 3]);
    }
    assert forall|v: u32| #[trigger] w.cache.contains(v) && !a.cache.contains(v) implies a.cache.len()
        == CACHE_SIZE_MAX by {
        lemma_touched_contains(w.cache, corners, v);
        let i = choose|i: int| 0 <= i < all.len() && all[i] == v;
        if i < a.cache.len() {
            assert(a.cache[i] == v);
        }
    }
    assert forall|c: int| 0 <= c < 3 implies #[trigger] a.cache[c] == corners[c] by {
        assert(a.cache[c] == all[c]);
    }
}

/// A rescoring gives each vertex the score of its last place, and leaves the others.
proof fn lemma_rescored_vertices(
    s: ScoreState,
    table: ScoreTable,
    live: Seq<Seq<u32>>,
    cache: Seq<u32>,
    n: int,
)
    requires
        0 <= n <= cache.len(),
        s.vertex.len() == live.len(),
        forall|i: int| 0 <= i < cache.len() ==> #[trigger] cache[i] < live.len(),
        forall|v: int, i: int|
            0 <= v < live.len() && 0 <= i < live[v].len() ==> #[trigger] live[v][i]
                < s.triangle.len(),
    ensures
        ({
            let r = s.rescored(table, live, cache, n);
            &&& r.vertex.len() == s.vertex.len()
            &&& r.triangle.len() == s.triangle.len()
            &&& forall|i: int|
                0 <= i < n && (forall|j: int| i < j < n ==> cache[j] != cache[i])
                    ==> r.vertex[#[trigger] cache[i] as int] == table.score(
                    if i < CACHE_SIZE_MAX {
                        i
                    } else {
                        -1
                    },
                    live[cache[i] as int].len() as int,
                )
            &&& forall|v: int|
                0 <= v < live.len() && (forall|i: int| 0 <= i < n ==> cache[i] != v)
                    ==> #[trigger] r.vertex[v] == s.vertex[v]
        }),
    decreases n,
{
    if n > 0 {
        lemma_rescored_vertices(s, table, live, cache, n - 1);
        let before = s.rescored(table, live, cache, n - 1);
        let r = s.rescored(table, live, cache, n);
        let v = cache[n - 1] as int;
        assert(cache[n - 1] < live.len());
        let position = if n - 1 < CACHE_SIZE_MAX { n - 1 } else { -1 };
        let new_score = table.score(position, live[v].len() as int);
        let diff = score::nearest(new_score - before.vertex[v]);
        greedy::lemma_adjusted_all(
            ScoreState { vertex: before.vertex.update(v, new_score), ..before },
            live[v],
            live[v].len() as int,
            diff,
        );
        assert(r.vertex == before.vertex.update(v, new_score));
        assert forall|i: int|
            0 <= i < n && (forall|j: int| i < j < n ==> cache[j] != cache[i]) implies r.vertex[
        #[trigger] cache[i] as int] == table.score(
            if i < CACHE_SIZE_MAX {
                i
            } else {
                -1
            },
            live[cache[i] as int].len() as int,
        ) by {
            if i < n - 1 {
                assert(cache[n - 1] != cache[i]);
                assert(forall|j: int| i < j < n - 1 ==> cache[j] != cache[i]);
            }
        }
        assert forall|u: int|
            0 <= u < live.len() && (forall|i: int| 0 <= i < n ==> cache[i] != u) implies
            #[trigger] r.vertex[u] == s.vertex[u] by {
            assert(cache[n - 1] != u);
            assert(before.vertex[u] == s.vertex[u]);
        }
    }
}

/// The score of a vertex at place `place` of the cache, counted from 1 (0: not in the cache),
/// with `left` corners left.
pub open spec fn place_score(table: ScoreTable, place: int, left: nat) -> int {
    score::nearest(table.cache[place] + table.live[if left < VALENCE_MAX {
        left as int
    } else {
        VALENCE_MAX as int
    }])
}

/// The scores of the vertices of a walk are those of their places.
spec fn is_scored(indices: Seq<u32>, table: ScoreTable, w: Walk) -> bool {
    &&& forall|v: u32|
        v < w.live.len() && !#[trigger] w.cache.contains(v) ==> w.vertex_scores[v as int]
            == place_score(table, 0, w.live[v as int].len())
    &&& forall|v: int|
        u32::MAX < v < w.live.len() ==> #[trigger] w.vertex_scores[v] == place_score(
            table,
            0,
            w.live[v].len(),
        )
    &&& has_distinct_corners(indices) ==> forall|i: int|
        0 <= i < w.cache.len() ==> w.vertex_scores[#[trigger] w.cache[i] as int] == place_score(
            table,
            i + 1,
            w.live[w.cache[i] as int].len(),
        )
}

proof fn lemma_scored_step(
    indices: Seq<u32>,
    vertex_count: nat,
    table: ScoreTable,
    k: nat,
)
    requires
        mesh::is_mesh(indices, vertex_count as int),
        0 < indices.len() <= u32::MAX,
        k < mesh::face_count(indices),
        is_scored(indices, table, greedy::walk_after(indices, vertex_count, table, k)),
    ensures
        is_scored(indices, table, greedy::walk_after(indices, vertex_count, table, k + 1)),
{
    let w = greedy::walk_after(indices, vertex_count, table, k);
    let a = greedy::walk_after(indices, vertex_count, table, k + 1);
    greedy::lemma_walk_after(indices, vertex_count, table, k);
    greedy::lemma_walk_step(indices, vertex_count, table, w);
    assert(a == greedy::walk_step(indices, table, w));
    let t = w.next->0;
    let order = w.order.push(t);
    let corners = mesh::triangle(indices, t as int);
    let cache = drift::next_cache(indices, w);
    let live = drift::next_live(indices, w);
    let s0 = drift::next_scores(w);
    let c = cache.len() as int;
    adjacency::lemma_detached_live(indices, w.live, w.order, t);
    assert forall|v: int, i: int| 0 <= v < live.len() && 0 <= i < live[v].len() implies
        #[trigger] live[v][i] < s0.triangle.len() by {
        adjacency::lemma_listed(indices, live, order, v, i);
    }
    lemma_rescored_vertices(s0, table, live, cache, c);
    assert(a.live == live);
    assert(a.cache == greedy::retained(cache));
    // a vertex that is not touched keeps its list
    assert forall|v: int|
        0 <= v < vertex_count && (forall|i: int| 0 <= i < 3 ==> corners[i] != v) implies
        #[trigger] live[v] == w.live[v] by {
        assert(corners[0] == indices[3 * t as int]);
        assert(corners[1] == indices[3 * t + 1]);
        assert(corners[2] == indices[3 * t + 2]);
    }
    assert forall|v: u32| v < a.live.len() && !#[trigger] a.cache.contains(v) implies a.vertex_scores[
    v as int] == place_score(table, 0, a.live[v as int].len()) by {
        lemma_touched_contains(w.cache, corners, v);
        if cache.contains(v) {
            lemma_last_place(cache, v, c);
            let i = choose|i: int|
                0 <= i < c && #[trigger] cache[i] == v && forall|j: int|
                    i < j < c ==> cache[j] != v;
            if i < CACHE_SIZE_MAX {
                assert(a.cache[i] == v);
            }
        } else {
            assert forall|i: int| 0 <= i < c implies cache[i] != v by {
                assert(cache.contains(cache[i]));
            }
            assert forall|i: int| 0 <= i < 3 implies corners[i] != v by {
                assert(corners.contains(corners[i]));
            }
            assert(live[v as int] == w.live[v as int]);
            assert(!w.cache.contains(v));
        }
    }
    assert forall|v: int| u32::MAX < v < a.live.len() implies #[trigger] a.vertex_scores[v]
        == place_score(table, 0, a.live[v].len()) by {
        assert(w.vertex_scores[v] == place_score(table, 0, w.live[v].len()));
        assert(live[v] == w.live[v]);
    }
    if has_distinct_corners(indices) {
        assert(corners.no_duplicates());
        lemma_cache_is_most_recent(indices, vertex_count, table, k);
        lemma_most_recent_step(mesh::reordered(indices, w.order), w.cache, corners);
        assert forall|i: int| 0 <= i < a.cache.len() implies a.vertex_scores[#[trigger] a.cache[i] as int]
            == place_score(table, i + 1, a.live[a.cache[i] as int].len()) by {
            assert(a.cache[i] == cache[i]);
            assert(forall|j: int| i < j < c ==> cache[j] != cache[i]);
        }
    }
}

proof fn lemma_last_place(cache: Seq<u32>, v: u32, n: int)
    requires
        0 <= n <= cache.len(),
        exists|i: int| 0 <= i < n && cache[i] == v,
    ensures
        exists|i: int|
            0 <= i < n && #[trigger] cache[i] == v && forall|j: int| i < j < n ==> cache[j] != v,
    decreases n,
{
    if cache[n - 1] != v {
        lemma_last_place(cache, v, n - 1);
        let i = choose|i: int|
            0 <= i < n - 1 && #[trigger] cache[i] == v && forall|j: int|
                i < j < n - 1 ==> cache[j] != v;
        assert(cache[i] == v);
    }
}

/// At any time the score of a vertex is that of its place in the modelled cache and of the
/// corners left at it, as the table gives them.
///
/// For vertices in the cache this is stated of meshes whose triangles have three different
/// vertices each: only there does every vertex have one place.
pub proof fn lemma_vertex_score(
    indices: Seq<u32>,
    vertex_count: nat,
    table: ScoreTable,
    k: nat,
    v: u32,
)
    requires
        mesh::is_mesh(indices, vertex_count as int),
        0 < indices.len() <= u32::MAX,
        k <= mesh::face_count(indices),
        v < vertex_count,
    ensures
        ({
            let w = greedy::walk_after(indices, vertex_count, table, k);
            let left = mesh::corners_left(indices, w.order, v as int);
            &&& !w.cache.contains(v) ==> w.vertex_scores[v as int] == place_score(table, 0, left)
            &&& has_distinct_corners(indices) ==> forall|i: int|
                0 <= i < w.cache.len() && #[trigger] w.cache[i] == v ==> w.vertex_scores[v as int]
                    == place_score(table, i + 1, left)
        }),
{
    lemma_scored(indices, vertex_count, table, k);
    greedy::lemma_walk_after(indices, vertex_count, table, k);
    lemma_live_is_corners_left(indices, vertex_count, table, k, v as int);
}

proof fn lemma_scored(indices: Seq<u32>, vertex_count: nat, table: ScoreTable, k: nat)
    requires
        mesh::is_mesh(indices, vertex_count as int),
        0 < indices.len() <= u32::MAX,
        k <= mesh::face_count(indices),
    ensures
        is_scored(indices, table, greedy::walk_after(indices, vertex_count, table, k)),
    decreases k,
{
    if k > 0 {
        lemma_scored(indices, vertex_count, table, (k - 1) as nat);
        lemma_scored_step(indices, vertex_count, table, (k - 1) as nat);
    }
}

/// Adjusting triangles keeps their scores numbers of 24 significant bits.
proof fn lemma_adjusted_representable(s: ScoreState, list: Seq<u32>, n: int, diff: int)
    requires
        n <= list.len(),
        forall|i: int| 0 <= i < list.len() ==> #[trigger] list[i] < s.triangle.len(),
        forall|t: int| 0 <= t < s.triangle.len() ==> score::representable(#[trigger] s.triangle[t]),
    ensures
        s.adjusted_all(list, n, diff).triangle.len() == s.triangle.len(),
        forall|t: int|
            0 <= t < s.triangle.len() ==> score::representable(
                #[trigger] s.adjusted_all(list, n, diff).triangle[t],
            ),
    decreases n,
{
    if n > 0 {
        lemma_adjusted_representable(s, list, n - 1, diff);
        let before = s.adjusted_all(list, n - 1, diff);
        let sum = before.triangle[list[n - 1] as int] + diff;
        score::lemma_nearest_representable(sum);
        let after = s.adjusted_all(list, n, diff);
        assert forall|t: int| 0 <= t < s.triangle.len() implies score::representable(
            #[trigger] after.triangle[t],
        ) by {
            assert(score::representable(before.triangle[t]));
        }
    }
}

proof fn lemma_rescored_representable(
    s: ScoreState,
    table: ScoreTable,
    live: Seq<Seq<u32>>,
    cache: Seq<u32>,
    n: int,
)
    requires
        n <= cache.len(),
        forall|i: int| 0 <= i < cache.len() ==> #[trigger] cache[i] < live.len(),
        forall|v: int, i: int|
            0 <= v < live.len() && 0 <= i < live[v].len() ==> #[trigger] live[v][i]
                < s.triangle.len(),
        forall|t: int| 0 <= t < s.triangle.len() ==> score::representable(#[trigger] s.triangle[t]),
    ensures
        s.rescored(table, live, cache, n).triangle.len() == s.triangle.len(),
        forall|t: int|
            0 <= t < s.triangle.len() ==> score::representable(
                #[trigger] s.rescored(table, live, cache, n).triangle[t],
            ),
    decreases n,
{
    if n > 0 {
        lemma_rescored_representable(s, table, live, cache, n - 1);
        let before = s.rescored(table, live, cache, n - 1);
        let v = cache[n - 1] as int;
        assert(cache[n - 1] < live.len());
        let position = if n - 1 < CACHE_SIZE_MAX { n - 1 } else { -1 };
        let new_score = table.score(position, live[v].len() as int);
        lemma_adjusted_representable(
            ScoreState { vertex: before.vertex.update(v, new_score), ..before },
            live[v],
            live[v].len() as int,
            score::nearest(new_score - before.vertex[v]),
        );
    }
}

/// At any time the score of every triangle is a number of 24 significant bits.
pub proof fn lemma_triangle_score_is_representable(
    indices: Seq<u32>,
    vertex_count: nat,
    table: ScoreTable,
    k: nat,
    t: int,
)
    requires
        mesh::is_mesh(indices, vertex_count as int),
        0 < indices.len() <= u32::MAX,
        k <= mesh::face_count(indices),
        0 <= t < mesh::face_count(indices),
    ensures
        score::representable(
            greedy::walk_after(indices, vertex_count, table, k).triangle_scores[t],
        ),
    decreases k,
{
    if k == 0 {
        let w = greedy::walk_start(indices, vertex_count, table);
        let vs = w.vertex_scores;
        score::lemma_nearest_representable(
            score::nearest(vs[indices[3 * t] as int] + vs[indices[3 * t + 1] as int])
                + vs[indices[3 * t + 2] as int],
        );
    } else {
        let j = (k - 1) as nat;
        let w = greedy::walk_after(indices, vertex_count, table, j);
        greedy::lemma_walk_after(indices, vertex_count, table, j);
        greedy::lemma_walk_step(indices, vertex_count, table, w);
        let s0 = drift::next_scores(w);
        assert(score::is_scaled(0, 0, 0));
        assert forall|u: int| 0 <= u < s0.triangle.len() implies score::representable(
            #[trigger] s0.triangle[u],
        ) by {
            lemma_triangle_score_is_representable(indices, vertex_count, table, j, u);
        }
        let cache = drift::next_cache(indices, w);
        let live = drift::next_live(indices, w);
        adjacency::lemma_detached_live(indices, w.live, w.order, w.next->0);
        assert forall|v: int, i: int| 0 <= v < live.len() && 0 <= i < live[v].len() implies
            #[trigger] live[v][i] < s0.triangle.len() by {
            adjacency::lemma_listed(indices, live, w.order.push(w.next->0), v, i);
        }
        lemma_rescored_representable(s0, table, live, cache, cache.len() as int);
    }
}

/// `places` are the places in `cache` of the vertices that are no corners, from the front.
pub open spec fn are_places_kept(places: Seq<int>, cache: Seq<u32>, corners: Seq<u32>) -> bool {
    &&& forall|i: int, j: int|
        0 <= i < j < places.len() ==> #[trigger] places[i] < #[trigger] places[j]
    &&& forall|p: int| #[trigger]
        places.contains(p) <==> 0 <= p < cache.len() && !corners.contains(cache[p])
}

/// The cache after a triangle is touched holds its corners and then, in the order they had, all
/// vertices that are no corners, each as often as before.
pub proof fn lemma_touched(cache: Seq<u32>, corners: Seq<u32>)
    ensures
        ({
            let all = greedy::touched(cache, corners);
            &&& all.take(corners.len() as int) == corners
            &&& exists|places: Seq<int>| #[trigger]
                are_places_kept(places, cache, corners) && all.len() == corners.len()
                    + places.len() && forall|i: int|
                    0 <= i < places.len() ==> all[corners.len() + i] == cache[#[trigger] places[i]]
        }),
{
    let all = greedy::touched(cache, corners);
    let kept = cache.filter(|v: u32| !corners.contains(v));
    let places = lemma_places_kept(cache, corners);
    assert(all.take(corners.len() as int) =~= corners);
    assert forall|i: int| 0 <= i < places.len() implies all[corners.len() + i]
        == cache[#[trigger] places[i]] by {
        assert(all[corners.len() + i] == kept[i]);
    }
}

proof fn lemma_places_kept(cache: Seq<u32>, corners: Seq<u32>) -> (places: Seq<int>)
    ensures
        are_places_kept(places, cache, corners),
        places.len() == cache.filter(|v: u32| !corners.contains(v)).len(),
        forall|i: int|
            0 <= i < places.len() ==> 0 <= #[trigger] places[i] < cache.len() && cache[places[i]]
                == cache.filter(|v: u32| !corners.contains(v))[i],
    decreases cache.len(),
{
    reveal(Seq::filter);
    let keep = |v: u32| !corners.contains(v);
    if cache.len() == 0 {
        Seq::empty()
    } else {
        let front = cache.drop_last();
        let before = lemma_places_kept(front, corners);
        let last = cache.len() - 1;
        let kept = front.filter(keep);
        assert forall|i: int| 0 <= i < before.len() implies 0 <= #[trigger] before[i] < last
            && cache[before[i]] == kept[i] by {
            assert(front[before[i]] == kept[i]);
        }
        if corners.contains(cache.last()) {
            assert forall|p: int| #[trigger] before.contains(p) <==> 0 <= p < cache.len()
                && !corners.contains(cache[p]) by {
                if 0 <= p < last {
                    assert(front[p] == cache[p]);
                }
            }
            before
        } else {
            let places = before.push(last);
            assert forall|p: int| #[trigger] places.contains(p) <==> 0 <= p < cache.len()
                && !corners.contains(cache[p]) by {
                if 0 <= p < last {
                    assert(front[p] == cache[p]);
                    if before.contains(p) {
                        let i = choose|i: int| 0 <= i < before.len() && before[i] == p;
                        assert(places[i] == p);
                    }
                    if places.contains(p) {
                        let i = choose|i: int| 0 <= i < places.len() && places[i] == p;
                        assert(before[i] == p);
                    }
                } else if p == last {
                    assert(places[before.len() as int] == p);
                } else if places.contains(p) {
                    let i = choose|i: int| 0 <= i < places.len() && places[i] == p;
                    if i < before.len() {
                        assert(0 <= before[i] < last);
                    }
                }
            }
            places
        }
    }
}

/// A step keeps the front of the cache it has touched, as much as the cache holds, and gives each
/// vertex touched the score of its last place there, in any mesh.
pub proof fn lemma_step_scores(
    indices: Seq<u32>,
    vertex_count: nat,
    table: ScoreTable,
    k: nat,
)
    requires
        mesh::is_mesh(indices, vertex_count as int),
        0 < indices.len() <= u32::MAX,
        k < mesh::face_count(indices),
    ensures
        ({
            let w = greedy::walk_after(indices, vertex_count, table, k);
            let a = greedy::walk_after(indices, vertex_count, table, k + 1);
            let cache = greedy::touched(w.cache, mesh::triangle(indices, w.next->0 as int));
            &&& a.cache.len() == (if cache.len() < 16 {
                cache.len()
            } else {
                16
            })
            &&& forall|i: int| 0 <= i < a.cache.len() ==> #[trigger] a.cache[i] == cache[i]
            &&& forall|i: int|
                0 <= i < cache.len() && (forall|j: int| i < j < cache.len() ==> cache[j] != cache[i])
                    ==> a.vertex_scores[#[trigger] cache[i] as int] == place_score(
                    table,
                    if i < 16 {
                        i + 1
                    } else {
                        0
                    },
                    mesh::corners_left(indices, a.order, cache[i] as int),
                )
        }),
{
    let w = greedy::walk_after(indices, vertex_count, table, k);
    let a = greedy::walk_after(indices, vertex_count, table, k + 1);
    greedy::lemma_walk_after(indices, vertex_count, table, k);
    greedy::lemma_walk_step(indices, vertex_count, table, w);
    assert(a == greedy::walk_step(indices, table, w));
    let t = w.next->0;
    let cache = drift::next_cache(indices, w);
    let live = drift::next_live(indices, w);
    let s0 = drift::next_scores(w);
    let c = cache.len() as int;
    adjacency::lemma_detached_live(indices, w.live, w.order, t);
    assert forall|v: int, i: int| 0 <= v < live.len() && 0 <= i < live[v].len() implies
        #[trigger] live[v][i] < s0.triangle.len() by {
        adjacency::lemma_listed(indices, live, w.order.push(t), v, i);
    }
    lemma_rescored_vertices(s0, table, live, cache, c);
    assert forall|i: int|
        0 <= i < c && (forall|j: int| i < j < c ==> cache[j] != cache[i]) implies a.vertex_scores[
    #[trigger] cache[i] as int] == place_score(
        table,
        if i < 16 {
            i + 1
        } else {
            0
        },
        mesh::corners_left(indices, a.order, cache[i] as int),
    ) by {
        lemma_live_is_corners_left(indices, vertex_count, table, k + 1, cache[i] as int);
    }
}

} // verus!
