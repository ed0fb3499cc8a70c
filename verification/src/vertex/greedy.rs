//! Greedy reordering of triangles by vertex scores.
//!
//! The walk emits one triangle at a time. Emitting a triangle brings its vertices to the front
//! of a small modelled cache and changes the scores of the vertices in that cache; the next
//! triangle is the one that comes out best among the triangles around these vertices or, if
//! there is none, the first one in input order that is still left.

use crate::mesh;
use crate::vertex::adjacency;
use crate::vertex::adjacency::build_triangle_adjacency;
use crate::vertex::adjacency::TriangleAdjacency;
use crate::vertex::score;
use crate::vertex::score::round;
use crate::vertex::score::vertex_score;
use crate::vertex::score::ScoreTable;
use crate::vertex::score::VertexScoreTable;
use crate::vertex::score::CACHE_SIZE_MAX;
use crate::vertex::score::ONE;
use crate::vertex::score::SCORE_MAX;
use vstd::prelude::*;

verus! {

/// The scores of vertices and triangles, and the best triangle met so far in the course of a
/// rescoring.
#[verifier::ext_equal]
pub struct ScoreState {
    pub vertex: Seq<int>,
    pub triangle: Seq<int>,
    pub best: Option<u32>,
    pub best_score: int,
}

impl ScoreState {
    /// Adds `diff` to the score of triangle `t`; a triangle that scores more than any before
    /// becomes the best one.
    pub open spec fn adjusted(self, t: u32, diff: int) -> ScoreState {
        let sum = score::nearest(self.triangle[t as int] + diff);
        ScoreState {
            vertex: self.vertex,
            triangle: self.triangle.update(t as int, sum),
            best: if self.best_score < sum {
                Some(t)
            } else {
                self.best
            },
            best_score: if self.best_score < sum {
                sum
            } else {
                self.best_score
            },
        }
    }

    /// Adjusts the first `n` triangles of `list`, one after the other.
    pub open spec fn adjusted_all(self, list: Seq<u32>, n: int, diff: int) -> ScoreState
        decreases n,
    {
        if n <= 0 {
            self
        } else {
            self.adjusted_all(list, n - 1, diff).adjusted(list[n - 1], diff)
        }
    }

    /// Gives vertex `v` the score of position `i` of the cache, and passes the difference on to
    /// its live triangles. Positions from `CACHE_SIZE_MAX` on are those of vertices that have
    /// just dropped out of the cache.
    pub open spec fn placed(
        self,
        table: ScoreTable,
        live: Seq<Seq<u32>>,
        v: int,
        i: int,
    ) -> ScoreState {
        let position = if i < CACHE_SIZE_MAX {
            i
        } else {
            -1
        };
        let new_score = table.score(position, live[v].len() as int);
        let diff = score::nearest(new_score - self.vertex[v]);
        ScoreState { vertex: self.vertex.update(v, new_score), ..self }.adjusted_all(
            live[v],
            live[v].len() as int,
            diff,
        )
    }

    /// Rescores the vertices at the first `n` positions of `cache`, from the front.
    pub open spec fn rescored(
        self,
        table: ScoreTable,
        live: Seq<Seq<u32>>,
        cache: Seq<u32>,
        n: int,
    ) -> ScoreState
        decreases n,
    {
        if n <= 0 {
            self
        } else {
            self.rescored(table, live, cache, n - 1).placed(table, live, cache[n - 1] as int, n - 1)
        }
    }
}

/// The scores of vertices and triangles, and the best triangle met so far.
pub struct Scores {
    pub vertex: Vec<i64>,
    pub triangle: Vec<i64>,
    pub best: Option<u32>,
    pub best_score: i64,
}

impl View for Scores {
    type V = ScoreState;

    open spec fn view(&self) -> ScoreState {
        ScoreState {
            vertex: Seq::new(self.vertex@.len(), |i: int| self.vertex@[i] as int),
            triangle: Seq::new(self.triangle@.len(), |i: int| self.triangle@[i] as int),
            best: self.best,
            best_score: self.best_score as int,
        }
    }
}

impl Scores {
    /// Every score is within its range.
    pub open spec fn wf(self) -> bool {
        &&& forall|v: int|
            0 <= v < self.vertex@.len() ==> 0 <= #[trigger] self.vertex@[v] <= 2 * ONE
        &&& forall|t: int|
            0 <= t < self.triangle@.len() ==> -SCORE_MAX <= #[trigger] self.triangle@[t]
                <= SCORE_MAX
    }

    /// Adds `diff` to the score of each triangle of `list`, one after the other, and keeps the
    /// best triangle up to date.
    pub fn adjust(&mut self, list: &[u32], diff: i64)
        requires
            old(self).wf(),
            -2 * ONE <= diff <= 2 * ONE,
            forall|i: int| 0 <= i < list@.len() ==> #[trigger] list@[i] < old(self).triangle@.len(),
        ensures
            final(self).wf(),
            final(self).vertex@ == old(self).vertex@,
            final(self).triangle@.len() == old(self).triangle@.len(),
            final(self)@ == old(self)@.adjusted_all(list@, list@.len() as int, diff as int),
    {
        let mut i: usize = 0;
        let n: usize = list.len();
        while i < n
            invariant
                i <= n,
                n == list@.len(),
                self.wf(),
                -2 * ONE <= diff <= 2 * ONE,
                self.vertex@ == old(self).vertex@,
                self.triangle@.len() == old(self).triangle@.len(),
                forall|j: int|
                    0 <= j < list@.len() ==> #[trigger] list@[j] < old(self).triangle@.len(),
                self@ == old(self)@.adjusted_all(list@, i as int, diff as int),
            decreases n - i,
        {
            let ghost before = self@;
            let t: u32 = list[i];
            proof {
                score::lemma_adjusted_bounds(self.triangle@[t as int] as int, diff as int);
            }
            let tri_score: i64 = round(self.triangle[t as usize] + diff);
            if self.best_score < tri_score {
                self.best = Some(t);
                self.best_score = tri_score;
            }
            self.triangle[t as usize] = tri_score;
            i += 1;
            assert(self@ =~= before.adjusted(t, diff as int));
        }
    }

    /// Rescores the vertices of `cache` by their positions, with the triangles around them.
    pub fn rescore(&mut self, table: &VertexScoreTable, adjacency: &TriangleAdjacency, cache: &[u32])
        requires
            old(self).wf(),
            table@.wf(),
            adjacency.wf(),
            old(self).vertex@.len() == adjacency.counts@.len(),
            cache@.len() <= i32::MAX,
            forall|i: int| 0 <= i < cache@.len() ==> #[trigger] cache@[i] < adjacency.counts@.len(),
            forall|v: int, i: int|
                0 <= v < adjacency.counts@.len() && 0 <= i < adjacency.list(v).len()
                    ==> #[trigger] adjacency.list(v)[i] < old(self).triangle@.len(),
        ensures
            final(self).wf(),
            final(self).vertex@.len() == old(self).vertex@.len(),
            final(self).triangle@.len() == old(self).triangle@.len(),
            final(self)@ == old(self)@.rescored(
                table@,
                adjacency.lists(),
                cache@,
                cache@.len() as int,
            ),
    {
        let mut i: usize = 0;
        let n: usize = cache.len();
        while i < n
            invariant
                i <= n,
                n == cache@.len(),
                n <= i32::MAX,
                self.wf(),
                table@.wf(),
                adjacency.wf(),
                self.vertex@.len() == old(self).vertex@.len(),
                self.vertex@.len() == adjacency.counts@.len(),
                self.triangle@.len() == old(self).triangle@.len(),
                forall|j: int|
                    0 <= j < cache@.len() ==> #[trigger] cache@[j] < adjacency.counts@.len(),
                forall|v: int, j: int|
                    0 <= v < adjacency.counts@.len() && 0 <= j < adjacency.list(v).len()
                        ==> #[trigger] adjacency.list(v)[j] < old(self).triangle@.len(),
                self@ == old(self)@.rescored(table@, adjacency.lists(), cache@, i as int),
            decreases n - i,
        {
            let ghost before = self@;
            let index: usize = cache[i] as usize;
            let cache_position: i32 = if i >= CACHE_SIZE_MAX {
                -1
            } else {
                i as i32
            };
            assert(adjacency.offsets@[index as int] + adjacency.counts@[index as int]
                <= adjacency.data.len());

            // update vertex score
            let off: usize = adjacency.offsets[index] as usize;
            let count: usize = adjacency.counts[index] as usize;
            let score: i64 = vertex_score(table, cache_position, count);
            proof {
                score::lemma_difference_bounds(score as int, self.vertex@[index as int] as int);
            }
            let score_diff: i64 = round(score - self.vertex[index]);
            self.vertex[index] = score;

            // update scores of vertex triangles
            let neighbours: &[u32] = &adjacency.data.as_slice()[off..off + count];
            assert(neighbours@ == adjacency.list(index as int));
            let ghost placed = self@;
            assert(placed =~= (ScoreState {
                vertex: before.vertex.update(index as int, score as int),
                ..before
            }));
            assert(adjacency.lists()[index as int] == neighbours@);
            self.adjust(neighbours, score_diff);
            i += 1;
        }
    }
}

/// The first position from `cursor` on, below `n`, at which `flags` is not set, or `n` (or
/// `cursor`, where that is beyond `n`).
pub open spec fn first_unset(flags: Seq<bool>, cursor: int, n: int) -> int
    decreases n - cursor,
{
    if cursor >= n || !flags[cursor] {
        cursor
    } else {
        first_unset(flags, cursor + 1, n)
    }
}

/// The cache after the vertices of `corners` are brought to its front; vertices that drop out
/// of the cache by that still stand behind its end.
pub open spec fn touched(cache: Seq<u32>, corners: Seq<u32>) -> Seq<u32> {
    corners + cache.filter(|v: u32| !corners.contains(v))
}

/// The first vertices of `cache`, as many as the cache holds.
pub open spec fn retained(cache: Seq<u32>) -> Seq<u32> {
    cache.take(if cache.len() < CACHE_SIZE_MAX {
        cache.len() as int
    } else {
        CACHE_SIZE_MAX as int
    })
}

/// The score of triangle `t`: the scores of its corners, added from the first to the last.
pub open spec fn triangle_total(indices: Seq<u32>, vertex: Seq<int>, t: int) -> int {
    score::nearest(
        score::nearest(vertex[indices[3 * t] as int] + vertex[indices[3 * t + 1] as int])
            + vertex[indices[3 * t + 2] as int],
    )
}

/// A greedy walk in progress.
pub struct Walk {
    /// The triangles emitted so far, first to last.
    pub order: Seq<u32>,
    /// The vertices in the modelled cache, the most recent ones first.
    pub cache: Seq<u32>,
    /// For each vertex, the triangles around it that are not emitted.
    pub live: Seq<Seq<u32>>,
    pub vertex_scores: Seq<int>,
    pub triangle_scores: Seq<int>,
    /// Every triangle before this one has been emitted or comes next.
    pub cursor: int,
    /// The triangle to emit next.
    pub next: Option<u32>,
}

/// The walk before its first step, which emits triangle 0.
pub open spec fn walk_start(indices: Seq<u32>, vertex_count: nat, table: ScoreTable) -> Walk {
    let live = adjacency::incidence(indices, vertex_count);
    let vertex_scores = Seq::new(vertex_count, |v: int| table.score(-1, live[v].len() as int));
    Walk {
        order: Seq::empty(),
        cache: Seq::empty(),
        live,
        vertex_scores,
        triangle_scores: Seq::new(
            mesh::face_count(indices),
            |t: int| triangle_total(indices, vertex_scores, t),
        ),
        cursor: 1,
        next: Some(0u32),
    }
}

/// One step of the walk: emits the next triangle and chooses the one after it. A walk that has
/// ended stays as it is.
pub open spec fn walk_step(indices: Seq<u32>, table: ScoreTable, w: Walk) -> Walk {
    match w.next {
        None => w,
        Some(t) => {
            let order = w.order.push(t);
            let cache = touched(w.cache, mesh::triangle(indices, t as int));
            let live = adjacency::detached(indices, w.live, t);
            let scores = ScoreState {
                vertex: w.vertex_scores,
                triangle: w.triangle_scores.update(t as int, 0),
                best: None,
                best_score: 0,
            }.rescored(table, live, cache, cache.len() as int);
            let n = mesh::face_count(indices);
            let dead_end = first_unset(mesh::emitted_flags(order, n), w.cursor, n as int);
            Walk {
                order,
                cache: retained(cache),
                live,
                vertex_scores: scores.vertex,
                triangle_scores: scores.triangle,
                cursor: if scores.best is Some {
                    w.cursor
                } else {
                    dead_end
                },
                next: if scores.best is Some {
                    scores.best
                } else if dead_end < n {
                    Some(dead_end as u32)
                } else {
                    None
                },
            }
        },
    }
}

/// The walk after `k` steps.
pub open spec fn walk_after(indices: Seq<u32>, vertex_count: nat, table: ScoreTable, k: nat) -> Walk
    decreases k,
{
    if k == 0 {
        walk_start(indices, vertex_count, table)
    } else {
        walk_step(indices, table, walk_after(indices, vertex_count, table, (k - 1) as nat))
    }
}

/// The order in which the greedy walk emits the triangles of a mesh: one triangle per step.
pub open spec fn greedy_order(indices: Seq<u32>, vertex_count: nat, table: ScoreTable) -> Seq<u32> {
    walk_after(indices, vertex_count, table, mesh::face_count(indices)).order
}

/// What holds of a walk after any number of steps.
pub open spec fn walk_inv(indices: Seq<u32>, vertex_count: nat, w: Walk) -> bool {
    let n = mesh::face_count(indices);
    &&& w.live.len() == vertex_count
    &&& adjacency::lists_live(indices, w.live, w.order)
    &&& w.vertex_scores.len() == vertex_count
    &&& w.triangle_scores.len() == n
    &&& w.order.no_duplicates()
    &&& forall|i: int| 0 <= i < w.order.len() ==> #[trigger] w.order[i] < n
    &&& w.cache.len() <= CACHE_SIZE_MAX
    &&& forall|i: int| 0 <= i < w.cache.len() ==> #[trigger] w.cache[i] < vertex_count
    &&& 1 <= w.cursor <= n
    &&& forall|t: u32| t < w.cursor ==> #[trigger] w.order.contains(t) || w.next == Some(t)
    &&& match w.next {
        Some(t) => t < n && !w.order.contains(t),
        None => w.cursor == n,
    }
}

/// Adjusting triangles leaves the vertex scores, and the best triangle is an adjusted one.
pub proof fn lemma_adjusted_all(s: ScoreState, list: Seq<u32>, n: int, diff: int)
    requires
        0 <= n <= list.len(),
        forall|i: int| 0 <= i < list.len() ==> #[trigger] list[i] < s.triangle.len(),
    ensures
        s.adjusted_all(list, n, diff).vertex == s.vertex,
        s.adjusted_all(list, n, diff).triangle.len() == s.triangle.len(),
        s.adjusted_all(list, n, diff).best == s.best || (exists|i: int|
            0 <= i < n && s.adjusted_all(list, n, diff).best == Some(#[trigger] list[i])),
    decreases n,
{
    if n > 0 {
        lemma_adjusted_all(s, list, n - 1, diff);
        let before = s.adjusted_all(list, n - 1, diff);
        let after = s.adjusted_all(list, n, diff);
        if after.best != s.best {
            if after.best == Some(list[n - 1]) {
            } else {
                assert(after.best == before.best);
                let i = choose|i: int| 0 <= i < n - 1 && before.best == Some(#[trigger] list[i]);
                assert(after.best == Some(list[i]));
            }
        }
    }
}

/// The best triangle of a rescoring is one that some vertex of the cache lists.
proof fn lemma_rescored(
    s: ScoreState,
    table: ScoreTable,
    live: Seq<Seq<u32>>,
    cache: Seq<u32>,
    n: int,
)
    requires
        0 <= n <= cache.len(),
        s.vertex.len() == live.len(),
        forall|i: int| 0 <= i < cache.len() ==> #[trigger] cache[i] < live.len(),
        forall|v: int, i: int|
            0 <= v < live.len() && 0 <= i < live[v].len() ==> #[trigger] live[v][i]
                < s.triangle.len(),
    ensures
        s.rescored(table, live, cache, n).vertex.len() == s.vertex.len(),
        s.rescored(table, live, cache, n).triangle.len() == s.triangle.len(),
        s.rescored(table, live, cache, n).best == s.best || (exists|v: int, i: int|
            0 <= v < live.len() && 0 <= i < live[v].len() && s.rescored(table, live, cache, n).best
                == Some(#[trigger] live[v][i])),
    decreases n,
{
    if n > 0 {
        lemma_rescored(s, table, live, cache, n - 1);
        let before = s.rescored(table, live, cache, n - 1);
        let v = cache[n - 1] as int;
        let position = if n - 1 < CACHE_SIZE_MAX {
            n - 1
        } else {
            -1
        };
        let new_score = table.score(position, live[v].len() as int);
        let diff = score::nearest(new_score - before.vertex[v]);
        lemma_adjusted_all(
            ScoreState { vertex: before.vertex.update(v, new_score), ..before },
            live[v],
            live[v].len() as int,
            diff,
        );
    }
}

/// The first position found is not set, and all between the cursor and it are.
pub proof fn lemma_first_unset(flags: Seq<bool>, cursor: int, n: int)
    requires
        0 <= cursor <= n,
        n <= flags.len(),
    ensures
        cursor <= first_unset(flags, cursor, n) <= n,
        forall|t: int| cursor <= t < first_unset(flags, cursor, n) ==> #[trigger] flags[t],
        first_unset(flags, cursor, n) < n ==> !flags[first_unset(flags, cursor, n)],
    decreases n - cursor,
{
    if cursor < n && flags[cursor] {
        lemma_first_unset(flags, cursor + 1, n);
    }
}

proof fn lemma_touched(cache: Seq<u32>, corners: Seq<u32>, bound: int)
    requires
        forall|i: int| 0 <= i < cache.len() ==> #[trigger] cache[i] < bound,
        forall|i: int| 0 <= i < corners.len() ==> #[trigger] corners[i] < bound,
    ensures
        touched(cache, corners).len() <= corners.len() + cache.len(),
        forall|i: int|
            0 <= i < touched(cache, corners).len() ==> #[trigger] touched(cache, corners)[i]
                < bound,
{
    let keep = |v: u32| !corners.contains(v);
    cache.lemma_filter_len(keep);
    assert forall|i: int| 0 <= i < touched(cache, corners).len() implies #[trigger] touched(
        cache,
        corners,
    )[i] < bound by {
        if i >= corners.len() {
            let x = cache.filter(keep)[i - corners.len()];
            assert(cache.filter(keep).contains(x));
            cache.lemma_filter_contains_rev(keep, x);
        }
    }
}

proof fn lemma_walk_start(indices: Seq<u32>, vertex_count: nat, table: ScoreTable)
    requires
        mesh::is_mesh(indices, vertex_count as int),
        0 < indices.len() <= u32::MAX,
    ensures
        walk_inv(indices, vertex_count, walk_start(indices, vertex_count, table)),
{
    adjacency::lemma_incidence_live(indices, vertex_count);
}

/// A step keeps what holds of a walk, and brings at most three vertices into the cache.
pub proof fn lemma_walk_step(indices: Seq<u32>, vertex_count: nat, table: ScoreTable, w: Walk)
    requires
        mesh::is_mesh(indices, vertex_count as int),
        indices.len() <= u32::MAX,
        walk_inv(indices, vertex_count, w),
    ensures
        walk_inv(indices, vertex_count, walk_step(indices, table, w)),
        w.next is Some ==> walk_step(indices, table, w).order == w.order.push(w.next->0),
        w.next is Some ==> {
            let cache = touched(w.cache, mesh::triangle(indices, w.next->0 as int));
            &&& cache.len() <= CACHE_SIZE_MAX + 3
            &&& forall|i: int| 0 <= i < cache.len() ==> #[trigger] cache[i] < vertex_count
        },
{
    if w.next is Some {
        let t = w.next->0;
        let n = mesh::face_count(indices);
        let order = w.order.push(t);
        let corners = mesh::triangle(indices, t as int);
        let cache = touched(w.cache, corners);
        let live = adjacency::detached(indices, w.live, t);
        adjacency::lemma_detached_live(indices, w.live, w.order, t);
        lemma_touched(w.cache, corners, vertex_count as int);
        let start = ScoreState {
            vertex: w.vertex_scores,
            triangle: w.triangle_scores.update(t as int, 0),
            best: None,
            best_score: 0,
        };
        assert forall|v: int, i: int| 0 <= v < live.len() && 0 <= i < live[v].len() implies
            #[trigger] live[v][i] < n by {
            adjacency::lemma_listed(indices, live, order, v, i);
        }
        lemma_rescored(start, table, live, cache, cache.len() as int);
        let scores = start.rescored(table, live, cache, cache.len() as int);
        let flags = mesh::emitted_flags(order, n);
        lemma_first_unset(flags, w.cursor, n as int);
        let dead_end = first_unset(flags, w.cursor, n as int);
        if scores.best is Some {
            let (v, i) = choose|v: int, i: int|
                0 <= v < live.len() && 0 <= i < live[v].len() && scores.best == Some(
                    #[trigger] live[v][i],
                );
            adjacency::lemma_listed(indices, live, order, v, i);
        }
        let after = walk_step(indices, table, w);
        assert(order[w.order.len() as int] == t);
        assert forall|s: u32| s < after.cursor implies #[trigger] order.contains(s) || after.next
            == Some(s) by {
            if w.order.contains(s) {
                let i = choose|i: int| 0 <= i < w.order.len() && w.order[i] == s;
                assert(order[i] == s);
            } else if s >= w.cursor {
                assert(flags[s as int]);
            }
        }
        assert(order.no_duplicates());
        if scores.best is None && dead_end < n {
            assert(!flags[dead_end]);
        }
    }
}

/// After `k` steps, `k` triangles are emitted, and the walk ends with the last one.
pub proof fn lemma_walk_after(indices: Seq<u32>, vertex_count: nat, table: ScoreTable, k: nat)
    requires
        mesh::is_mesh(indices, vertex_count as int),
        0 < indices.len() <= u32::MAX,
        k <= mesh::face_count(indices),
    ensures
        walk_inv(indices, vertex_count, walk_after(indices, vertex_count, table, k)),
        walk_after(indices, vertex_count, table, k).order.len() == k,
        (walk_after(indices, vertex_count, table, k).next is Some) <==> k < mesh::face_count(
            indices,
        ),
        k == mesh::face_count(indices) ==> mesh::is_permutation(
            walk_after(indices, vertex_count, table, k).order,
            k,
        ),
    decreases k,
{
    let n = mesh::face_count(indices);
    let w = walk_after(indices, vertex_count, table, k);
    if k == 0 {
        lemma_walk_start(indices, vertex_count, table);
    } else {
        lemma_walk_after(indices, vertex_count, table, (k - 1) as nat);
        lemma_walk_step(
            indices,
            vertex_count,
            table,
            walk_after(indices, vertex_count, table, (k - 1) as nat),
        );
    }
    if w.next is Some {
        mesh::lemma_missing_one(w.order, n, w.next->0);
    } else {
        mesh::lemma_missing_none(w.order, n);
    }
}

/// The greedy walk emits every triangle of the mesh exactly once.
pub proof fn lemma_greedy_order_is_permutation(
    indices: Seq<u32>,
    vertex_count: nat,
    table: ScoreTable,
)
    requires
        mesh::is_mesh(indices, vertex_count as int),
        indices.len() <= u32::MAX,
    ensures
        mesh::is_permutation(
            greedy_order(indices, vertex_count, table),
            mesh::face_count(indices),
        ),
{
    if indices.len() > 0 {
        lemma_walk_after(indices, vertex_count, table, mesh::face_count(indices));
    }
}

/// Looking for the next triangle again finds the same one and leaves the cursor on it, as long
/// as no flag changes.
pub proof fn lemma_first_unset_stays(flags: Seq<bool>, cursor: int, n: int)
    ensures
        first_unset(flags, first_unset(flags, cursor, n), n) == first_unset(flags, cursor, n),
    decreases n - cursor,
{
    if cursor < n && flags[cursor] {
        lemma_first_unset_stays(flags, cursor + 1, n);
    }
}

/// The next triangle in input order that is not emitted, from `input_cursor` on. The cursor
/// moves on to it and not beyond, so that the same triangle is found again. A triangle is told
/// by the low 32 bits of its number.
pub fn get_next_triangle_dead_end(
    input_cursor: &mut usize,
    emitted_flags: &[bool],
    face_count: usize,
) -> (triangle: Option<u32>)
    requires
        // the flags up to the triangle taken are there
        *old(input_cursor) < face_count ==> face_count <= emitted_flags@.len() || first_unset(
            emitted_flags@,
            *old(input_cursor) as int,
            emitted_flags@.len() as int,
        ) < emitted_flags@.len(),
    ensures
        *final(input_cursor) == first_unset(
            emitted_flags@,
            *old(input_cursor) as int,
            face_count as int,
        ),
        triangle == (if *final(input_cursor) < face_count {
            Some(*final(input_cursor) as u32)
        } else {
            None
        }),
        first_unset(emitted_flags@, *final(input_cursor) as int, face_count as int)
            == *final(input_cursor),
{
    while *input_cursor < face_count
        invariant
            *input_cursor < face_count ==> face_count <= emitted_flags@.len() || first_unset(
                emitted_flags@,
                *input_cursor as int,
                emitted_flags@.len() as int,
            ) < emitted_flags@.len(),
            first_unset(emitted_flags@, *input_cursor as int, face_count as int) == first_unset(
                emitted_flags@,
                *old(input_cursor) as int,
                face_count as int,
            ),
        decreases face_count - *input_cursor,
    {
        if !emitted_flags[*input_cursor] {
            return Some(*input_cursor as u32);
        }
        *input_cursor += 1;
    }
    None
}

fn slice_contains(list: &[u32], x: u32) -> (found: bool)
    ensures
        found == list@.contains(x),
{
    let n: usize = list.len();
    let mut i: usize = 0;
    while i < n
        invariant
            i <= n,
            n == list@.len(),
            forall|j: int| 0 <= j < i ==> list@[j] != x,
        decreases n - i,
    {
        if list[i] == x {
            return true;
        }
        i += 1;
    }
    false
}

/// Brings the vertices of `corners` to the front of the cache.
pub fn touch_cache(cache: &[u32], corners: &[u32]) -> (cache_new: Vec<u32>)
    ensures
        cache_new@ == touched(cache@, corners@),
{
    let ghost keep = |v: u32| !corners@.contains(v);
    let mut cache_new: Vec<u32> = Vec::new();

    // new triangle
    let mut i: usize = 0;
    let m: usize = corners.len();
    while i < m
        invariant
            i <= m,
            m == corners@.len(),
            cache_new@ == corners@.take(i as int),
        decreases m - i,
    {
        cache_new.push(corners[i]);
        i += 1;
    }

    // old triangles
    i = 0;
    let n: usize = cache.len();
    assert(cache@.take(0).filter(keep) =~= Seq::<u32>::empty()) by {
        cache@.take(0).lemma_filter_len(keep);
    }
    assert(cache_new@ =~= corners@ + cache@.take(0).filter(keep));
    while i < n
        invariant
            i <= n,
            n == cache@.len(),
            keep == (|v: u32| !corners@.contains(v)),
            cache_new@ == corners@ + cache@.take(i as int).filter(keep),
        decreases n - i,
    {
        proof {
            reveal(Seq::filter);
            assert(cache@.take(i + 1).drop_last() =~= cache@.take(i as int));
            assert(cache@.take(i + 1).last() == cache@[i as int]);
        }
        let index: u32 = cache[i];
        if !slice_contains(corners, index) {
            cache_new.push(index);
        }
        i += 1;
        assert(cache_new@ =~= corners@ + cache@.take(i as int).filter(keep));
    }
    assert(cache@.take(n as int) =~= cache@);
    cache_new
}

impl Scores {
    /// The scores before the first triangle is emitted: no vertex is in the cache yet.
    pub fn new(
        table: &VertexScoreTable,
        adjacency: &TriangleAdjacency,
        indices: &[u32],
        vertex_count: usize,
    ) -> (scores: Scores)
        requires
            table@.wf(),
            adjacency.wf(),
            adjacency.counts@.len() == vertex_count,
            mesh::is_mesh(indices@, vertex_count as int),
        ensures
            scores.wf(),
            scores@.best is None,
            scores@.best_score == 0,
            scores@.vertex == Seq::new(
                vertex_count as nat,
                |v: int| table@.score(-1, adjacency.lists()[v].len() as int),
            ),
            scores@.triangle == Seq::new(
                mesh::face_count(indices@),
                |t: int| triangle_total(indices@, scores@.vertex, t),
            ),
    {
        let face_count: usize = indices.len() / 3;

        // compute initial vertex scores
        let mut vertex: Vec<i64> = Vec::new();
        let mut i: usize = 0;
        while i < vertex_count
            invariant
                i <= vertex_count,
                table@.wf(),
                adjacency.wf(),
                adjacency.counts@.len() == vertex_count,
                vertex@.len() == i,
                forall|v: int|
                    0 <= v < i ==> #[trigger] vertex@[v] == table@.score(
                        -1,
                        adjacency.lists()[v].len() as int,
                    ),
                forall|v: int| 0 <= v < i ==> 0 <= #[trigger] vertex@[v] <= 2 * ONE,
            decreases vertex_count - i,
        {
            assert(adjacency.offsets@[i as int] + adjacency.counts@[i as int]
                <= adjacency.data@.len());
            vertex.push(vertex_score(table, -1, adjacency.counts[i] as usize));
            i += 1;
        }

        // compute triangle scores
        let ghost vertex_scores = Seq::new(vertex@.len(), |v: int| vertex@[v] as int);
        let mut triangle: Vec<i64> = Vec::new();
        i = 0;
        while i < face_count
            invariant
                i <= face_count,
                face_count == mesh::face_count(indices@),
                mesh::is_mesh(indices@, vertex_count as int),
                vertex@.len() == vertex_count,
                vertex_scores == Seq::new(vertex@.len(), |v: int| vertex@[v] as int),
                forall|v: int| 0 <= v < vertex_count ==> 0 <= #[trigger] vertex@[v] <= 2 * ONE,
                triangle@.len() == i,
                forall|t: int|
                    0 <= t < i ==> #[trigger] triangle@[t] == triangle_total(
                        indices@,
                        vertex_scores,
                        t,
                    ),
                forall|t: int|
                    0 <= t < i ==> -SCORE_MAX <= #[trigger] triangle@[t] <= SCORE_MAX,
            decreases face_count - i,
        {
            assert(3 * i + 2 < indices.len());
            let a: i64 = vertex[indices[3 * i] as usize];
            let b: i64 = vertex[indices[3 * i + 1] as usize];
            let c: i64 = vertex[indices[3 * i + 2] as usize];
            proof {
                score::lemma_adjusted_bounds(a as int, b as int);
                score::lemma_adjusted_bounds(score::nearest(a + b), c as int);
            }
            triangle.push(round(round(a + b) + c));
            i += 1;
        }
        let scores = Scores { vertex, triangle, best: None, best_score: 0 };
        assert(scores@.vertex =~= Seq::new(
            vertex_count as nat,
            |v: int| table@.score(-1, adjacency.lists()[v].len() as int),
        ));
        assert(scores@.vertex =~= vertex_scores);
        assert(scores@.triangle =~= Seq::new(
            mesh::face_count(indices@),
            |t: int| triangle_total(indices@, scores@.vertex, t),
        ));
        scores
    }
}

/// Reorders the triangles of `indices` by a greedy walk with the scores of `table`.
pub fn optimize_vertex_cache_table(
    destination: &mut [u32],
    indices: &[u32],
    vertex_count: usize,
    table: &VertexScoreTable,
)
    requires
        table@.wf(),
        mesh::is_reorderable(indices@, vertex_count as int, old(destination)@.len() as int),
    ensures
        final(destination)@ == (if indices@.len() == 0 || vertex_count == 0 {
            old(destination)@
        } else {
            mesh::overwritten(
                old(destination)@,
                mesh::reordered(indices@, greedy_order(indices@, vertex_count as nat, table@)),
            )
        }),
        indices@.len() > 0 && vertex_count > 0 ==> mesh::is_rearrangement(
            final(destination)@.take(indices@.len() as int),
            indices@,
        ),
{
    // guard for empty meshes
    if indices.len() == 0 || vertex_count == 0 {
        return ;
    }
    let face_count: usize = indices.len() / 3;

    // build adjacency information
    let mut adjacency: TriangleAdjacency = TriangleAdjacency::new();
    build_triangle_adjacency(&mut adjacency, indices, vertex_count);

    // emitted flags
    let mut emitted_flags: Vec<bool> = vec![false; face_count];

    // compute initial vertex and triangle scores
    let mut scores: Scores = Scores::new(table, &adjacency, indices, vertex_count);

    let mut cache: Vec<u32> = Vec::new();
    let mut current: Option<u32> = Some(0);
    let mut input_cursor: usize = 1;
    let mut output_triangle: usize = 0;

    let ghost mut w = walk_start(indices@, vertex_count as nat, table@);
    assert(emitted_flags@ =~= mesh::emitted_flags(w.order, face_count as nat));
    assert(destination@ =~= mesh::overwritten(
        old(destination)@,
        mesh::reordered(indices@, w.order),
    ));
    while current.is_some()
        invariant
            table@.wf(),
            mesh::is_mesh(indices@, vertex_count as int),
            0 < indices@.len() <= u32::MAX,
            indices@.len() <= old(destination)@.len(),
            destination@.len() == old(destination)@.len(),
            face_count == mesh::face_count(indices@),
            output_triangle <= face_count,
            w == walk_after(indices@, vertex_count as nat, table@, output_triangle as nat),
            adjacency.wf(),
            adjacency.counts@.len() == vertex_count,
            adjacency.lists() == w.live,
            emitted_flags@ == mesh::emitted_flags(w.order, face_count as nat),
            scores.wf(),
            scores@.vertex == w.vertex_scores,
            scores@.triangle == w.triangle_scores,
            cache@ == w.cache,
            input_cursor == w.cursor,
            w.next == current,
            destination@ == mesh::overwritten(
                old(destination)@,
                mesh::reordered(indices@, w.order),
            ),
        decreases face_count - output_triangle,
    {
        let current_triangle: u32 = current.unwrap();
        let ghost dest0 = destination@;
        let ghost w0 = w;
        proof {
            lemma_walk_after(indices@, vertex_count as nat, table@, output_triangle as nat);
            lemma_walk_step(indices@, vertex_count as nat, table@, w);
            w = walk_step(indices@, table@, w);
            assert(w == walk_after(
                indices@,
                vertex_count as nat,
                table@,
                (output_triangle + 1) as nat,
            ));
            assert(3 * current_triangle + 2 < indices.len());
            assert(3 * output_triangle + 2 < destination.len());
        }
        let abc_begin: usize = current_triangle as usize * 3;
        let abc: &[u32] = &indices[abc_begin..abc_begin + 3];

        // output indices
        destination[output_triangle * 3] = abc[0];
        destination[output_triangle * 3 + 1] = abc[1];
        destination[output_triangle * 3 + 2] = abc[2];
        proof {
            mesh::lemma_overwritten_push(
                dest0,
                destination@,
                old(destination)@,
                indices@,
                w0.order,
                current_triangle,
            );
        }
        output_triangle += 1;

        // update emitted flags
        emitted_flags[current_triangle as usize] = true;
        scores.triangle[current_triangle as usize] = 0;
        proof {
            mesh::lemma_flags_push(w0.order, current_triangle, face_count as nat);
        }

        // update the cache
        let cache_write: Vec<u32> = touch_cache(cache.as_slice(), abc);

        // remove emitted triangle from adjacency data
        // this makes sure that less time is spent traversing these lists on subsequent iterations
        adjacency.remove(abc[0] as usize, current_triangle);
        adjacency.remove(abc[1] as usize, current_triangle);
        adjacency.remove(abc[2] as usize, current_triangle);
        assert(adjacency.lists() == adjacency::detached(indices@, w0.live, current_triangle));

        // update cache positions, vertex scores and triangle scores, and find next best triangle
        scores.best = None;
        scores.best_score = 0;
        proof {
            assert forall|v: int, i: int|
                0 <= v < adjacency.counts@.len() && 0 <= i < adjacency.list(v).len() implies
                #[trigger] adjacency.list(v)[i] < face_count by {
                assert(adjacency.lists()[v] == adjacency.list(v));
                adjacency::lemma_listed(indices@, adjacency.lists(), w.order, v, i);
            }
            assert(scores@ =~= ScoreState {
                vertex: w0.vertex_scores,
                triangle: w0.triangle_scores.update(current_triangle as int, 0),
                best: None,
                best_score: 0,
            });
        }
        scores.rescore(table, &adjacency, cache_write.as_slice());
        cache = cache_write;
        if cache.len() > CACHE_SIZE_MAX {
            cache.truncate(CACHE_SIZE_MAX);
        }
        assert(cache@ =~= w.cache);

        // step through input triangles in order if we hit a dead-end
        current = scores.best;
        if current.is_none() {
            current =
            get_next_triangle_dead_end(&mut input_cursor, emitted_flags.as_slice(), face_count);
        }
    }
    proof {
        lemma_walk_after(indices@, vertex_count as nat, table@, output_triangle as nat);
        mesh::lemma_overwritten_rearranges(old(destination)@, indices@, w.order);
    }
}

/// Scores in thousandths by cache position, tuned to minimize the number of vertex shader
/// invocations per triangle on a GPU with a cache profile common among current hardware.
pub const CACHE_SCORES: [u32; 17] = [
    0, 779, 791, 789, 981, 843, 726, 847, 882, 867, 799, 642, 613, 600, 568, 372, 234,
];

/// Scores in thousandths by number of live triangles, tuned with [CACHE_SCORES].
pub const LIVE_SCORES: [u32; 9] = [0, 995, 713, 450, 404, 59, 5, 147, 6];

/// Scores in thousandths by cache position, tuned to minimize the size of the encoded index
/// buffer.
pub const CACHE_SCORES_STRIP: [u32; 17] = [
    0, 1000, 1000, 1000, 453, 561, 490, 459, 179, 526, 0, 227, 184, 490, 112, 50, 131,
];

/// Scores in thousandths by number of live triangles, tuned with [CACHE_SCORES_STRIP].
pub const LIVE_SCORES_STRIP: [u32; 9] = [0, 956, 786, 577, 558, 618, 549, 499, 489];

/// The table of [optimize_vertex_cache].
pub open spec fn vertex_score_table() -> ScoreTable {
    ScoreTable::of_thousandths(CACHE_SCORES@, LIVE_SCORES@)
}

/// The table of [optimize_vertex_cache_strip].
pub open spec fn vertex_score_table_strip() -> ScoreTable {
    ScoreTable::of_thousandths(CACHE_SCORES_STRIP@, LIVE_SCORES_STRIP@)
}

/// The entries of the two tables: their thousandths, each rounded to the nearest score.
pub proof fn lemma_table_entries()
    ensures
        vertex_score_table().cache =~= CACHE_SCORES@.map_values(
            |m: u32| score::thousandths(m as nat) as int,
        ),
        vertex_score_table().live =~= LIVE_SCORES@.map_values(
            |m: u32| score::thousandths(m as nat) as int,
        ),
        vertex_score_table_strip().cache =~= CACHE_SCORES_STRIP@.map_values(
            |m: u32| score::thousandths(m as nat) as int,
        ),
        vertex_score_table_strip().live =~= LIVE_SCORES_STRIP@.map_values(
            |m: u32| score::thousandths(m as nat) as int,
        ),
        CACHE_SCORES@ == seq![
            0u32, 779, 791, 789, 981, 843, 726, 847, 882, 867, 799, 642, 613, 600, 568, 372, 234,
        ],
        LIVE_SCORES@ == seq![0u32, 995, 713, 450, 404, 59, 5, 147, 6],
        CACHE_SCORES_STRIP@ == seq![
            0u32, 1000, 1000, 1000, 453, 561, 490, 459, 179, 526, 0, 227, 184, 490, 112, 50, 131,
        ],
        LIVE_SCORES_STRIP@ == seq![0u32, 956, 786, 577, 558, 618, 549, 499, 489],
{
}

/// Reorders indices to reduce the number of GPU vertex shader invocations.
///
/// If the index buffer contains multiple ranges for multiple draw calls, this function needs
/// to be called on each range individually. `destination` must have room for the resulting
/// index buffer (`indices.len()` elements).
pub fn optimize_vertex_cache(destination: &mut [u32], indices: &[u32], vertex_count: usize)
    requires
        mesh::is_reorderable(indices@, vertex_count as int, old(destination)@.len() as int),
    ensures
        final(destination)@ == (if indices@.len() == 0 || vertex_count == 0 {
            old(destination)@
        } else {
            mesh::overwritten(
                old(destination)@,
                mesh::reordered(
                    indices@,
                    greedy_order(indices@, vertex_count as nat, vertex_score_table()),
                ),
            )
        }),
        indices@.len() > 0 && vertex_count > 0 ==> mesh::is_rearrangement(
            final(destination)@.take(indices@.len() as int),
            indices@,
        ),
{
    let table: VertexScoreTable = VertexScoreTable::from_thousandths(CACHE_SCORES, LIVE_SCORES);
    optimize_vertex_cache_table(destination, indices, vertex_count, &table);
}

/// Reorders indices to reduce the number of GPU vertex shader invocations (for strip-like
/// caches).
///
/// Produces inferior results to [optimize_vertex_cache] from the GPU vertex cache perspective.
/// However, the resulting index order is more optimal if the goal is to reduce the triangle
/// strip length or improve compression efficiency. `destination` must have room for the
/// resulting index buffer (`indices.len()` elements).
pub fn optimize_vertex_cache_strip(destination: &mut [u32], indices: &[u32], vertex_count: usize)
    requires
        mesh::is_reorderable(indices@, vertex_count as int, old(destination)@.len() as int),
    ensures
        final(destination)@ == (if indices@.len() == 0 || vertex_count == 0 {
            old(destination)@
        } else {
            mesh::overwritten(
                old(destination)@,
                mesh::reordered(
                    indices@,
                    greedy_order(indices@, vertex_count as nat, vertex_score_table_strip()),
                ),
            )
        }),
        indices@.len() > 0 && vertex_count > 0 ==> mesh::is_rearrangement(
            final(destination)@.take(indices@.len() as int),
            indices@,
        ),
{
    let table: VertexScoreTable = VertexScoreTable::from_thousandths(
        CACHE_SCORES_STRIP,
        LIVE_SCORES_STRIP,
    );
    optimize_vertex_cache_table(destination, indices, vertex_count, &table);
}

} // verus!
