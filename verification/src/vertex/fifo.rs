//! Reordering of triangles for a first-in first-out vertex cache.
//!
//! The walk goes from vertex to vertex and emits all triangles around the current one. It goes
//! on at a corner of these triangles, preferably one that has been in the cache for long but
//! will still be there after the triangles around it are emitted too. At a dead end it
//! returns to the corner it met last, of those that still have triangles, or else takes the
//! next such vertex in input order.

use crate::mesh;
use crate::util;
use crate::vertex::adjacency;
use crate::vertex::adjacency::build_triangle_adjacency;
use crate::vertex::adjacency::TriangleAdjacency;
use vstd::prelude::*;

verus! {

/// A walk in progress.
#[verifier::ext_equal]
pub struct FifoWalk {
    /// The triangles emitted so far, first to last.
    pub order: Seq<u32>,
    /// For each vertex, the number of corners there that belong to triangles not emitted.
    pub live: Seq<int>,
    /// For each vertex, the time at which it last entered the cache, or 0.
    pub stamps: Seq<int>,
    /// The time at which the next vertex enters the cache.
    pub time: int,
    /// The corners met, the last ones on top.
    pub stack: Seq<u32>,
    /// Every vertex before this one has no triangles left or comes next.
    pub cursor: int,
    /// The vertex to go to next.
    pub next: Option<u32>,
}

impl FifoWalk {
    /// Counts off a corner at vertex `v`, and brings `v` into the cache unless it is there: a
    /// vertex is in a cache of size `cache_size` until that many more have entered.
    pub open spec fn visited(self, v: int, cache_size: int) -> FifoWalk {
        let missing = self.time - self.stamps[v] > cache_size;
        FifoWalk {
            live: self.live.update(v, self.live[v] - 1),
            stamps: if missing {
                self.stamps.update(v, self.time)
            } else {
                self.stamps
            },
            time: if missing {
                self.time + 1
            } else {
                self.time
            },
            ..self
        }
    }

    /// Emits triangle `t`.
    pub open spec fn emitted(self, indices: Seq<u32>, t: u32, cache_size: int) -> FifoWalk {
        FifoWalk {
            order: self.order.push(t),
            stack: self.stack + mesh::triangle(indices, t as int),
            ..self
        }.visited(indices[3 * t as int] as int, cache_size).visited(
            indices[3 * t + 1] as int,
            cache_size,
        ).visited(indices[3 * t + 2] as int, cache_size)
    }

    /// Emits those of the first `n` triangles of `list` that are not emitted yet.
    pub open spec fn fanned(
        self,
        indices: Seq<u32>,
        list: Seq<u32>,
        n: int,
        cache_size: int,
    ) -> FifoWalk
        decreases n,
    {
        if n <= 0 {
            self
        } else {
            let before = self.fanned(indices, list, n - 1, cache_size);
            if before.order.contains(list[n - 1]) {
                before
            } else {
                before.emitted(indices, list[n - 1], cache_size)
            }
        }
    }
}

/// How much the walk prefers to go on at vertex `v`: not at all (-1) without triangles left;
/// otherwise by its age in the cache, if it will still be in the cache after the triangles
/// around it are emitted.
pub open spec fn priority(
    v: int,
    live: Seq<int>,
    stamps: Seq<int>,
    time: int,
    cache_size: int,
) -> int {
    if live[v] <= 0 {
        -1
    } else if 2 * live[v] + time - stamps[v] <= cache_size {
        time - stamps[v]
    } else {
        0
    }
}

/// The position of the first among the most preferred of the first `n` candidates, or -1 if
/// none of them is preferred at all.
pub open spec fn best_candidate(
    candidates: Seq<u32>,
    n: int,
    live: Seq<int>,
    stamps: Seq<int>,
    time: int,
    cache_size: int,
) -> int
    decreases n,
{
    if n <= 0 {
        -1
    } else {
        let best = best_candidate(candidates, n - 1, live, stamps, time, cache_size);
        let best_priority = if best < 0 {
            -1
        } else {
            priority(candidates[best] as int, live, stamps, time, cache_size)
        };
        if priority(candidates[n - 1] as int, live, stamps, time, cache_size) > best_priority {
            n - 1
        } else {
            best
        }
    }
}

/// The position of the last of the first `n` entries of `stack` that has triangles left, or -1.
pub open spec fn last_live(stack: Seq<u32>, n: int, live: Seq<int>) -> int
    decreases n,
{
    if n <= 0 {
        -1
    } else if live[stack[n - 1] as int] > 0 {
        n - 1
    } else {
        last_live(stack, n - 1, live)
    }
}

/// The first vertex from `cursor` on, below `n`, that has triangles left, or `n` (or `cursor`,
/// where that is beyond `n`).
pub open spec fn first_live(live: Seq<int>, cursor: int, n: int) -> int
    decreases n - cursor,
{
    if cursor >= n || live[cursor] > 0 {
        cursor
    } else {
        first_live(live, cursor + 1, n)
    }
}

/// The walk before its first step, which goes to vertex 0.
pub open spec fn walk_start(indices: Seq<u32>, vertex_count: nat, cache_size: int) -> FifoWalk {
    FifoWalk {
        order: Seq::empty(),
        live: Seq::new(
            vertex_count,
            |v: int| adjacency::incident(indices, v, indices.len() as int).len() as int,
        ),
        stamps: Seq::new(vertex_count, |v: int| 0int),
        time: cache_size + 1,
        stack: Seq::empty(),
        cursor: 1,
        next: Some(0u32),
    }
}

/// One step of the walk: emits the triangles around the current vertex and chooses the vertex
/// to go to. The number `u32::MAX` stands for no neighbour: where the candidate preferred has
/// it, the walk goes on as from a dead end. A walk that has ended stays as it is.
pub open spec fn walk_step(indices: Seq<u32>, cache_size: int, w: FifoWalk) -> FifoWalk {
    match w.next {
        None => w,
        Some(v) => {
            let list = adjacency::incident(indices, v as int, indices.len() as int);
            let f = w.fanned(indices, list, list.len() as int, cache_size);
            let candidates = f.stack.skip(w.stack.len() as int);
            let best = best_candidate(
                candidates,
                candidates.len() as int,
                f.live,
                f.stamps,
                f.time,
                cache_size,
            );
            let top = last_live(f.stack, f.stack.len() as int, f.live);
            let cursor = first_live(f.live, f.cursor, f.live.len() as int);
            if best >= 0 && candidates[best] != u32::MAX {
                FifoWalk { next: Some(candidates[best]), ..f }
            } else if top >= 0 {
                FifoWalk { stack: f.stack.take(top), next: Some(f.stack[top]), ..f }
            } else {
                FifoWalk {
                    stack: Seq::empty(),
                    cursor,
                    next: if cursor < f.live.len() {
                        Some(cursor as u32)
                    } else {
                        None
                    },
                    ..f
                }
            }
        },
    }
}

/// The walk after `k` steps.
pub open spec fn walk_after(
    indices: Seq<u32>,
    vertex_count: nat,
    cache_size: int,
    k: nat,
) -> FifoWalk
    decreases k,
{
    if k == 0 {
        walk_start(indices, vertex_count, cache_size)
    } else {
        walk_step(indices, cache_size, walk_after(indices, vertex_count, cache_size, (k - 1) as nat))
    }
}

/// The order in which the walk emits the triangles of a mesh. Every step but the first one
/// emits a triangle, so that it has ended after one step more than there are triangles.
pub open spec fn fifo_order(indices: Seq<u32>, vertex_count: nat, cache_size: int) -> Seq<u32> {
    walk_after(indices, vertex_count, cache_size, mesh::face_count(indices) + 1).order
}

/// How many entries of `list` are not in `order`.
pub open spec fn waiting(list: Seq<u32>, order: Seq<u32>) -> int
    decreases list.len(),
{
    if list.len() == 0 {
        0
    } else {
        waiting(list.drop_last(), order) + (if order.contains(list.last()) {
            0int
        } else {
            1int
        })
    }
}

/// At the start every entry waits.
pub proof fn lemma_waiting_none(list: Seq<u32>)
    ensures
        waiting(list, Seq::empty()) == list.len(),
    decreases list.len(),
{
    if list.len() > 0 {
        lemma_waiting_none(list.drop_last());
        assert(!Seq::<u32>::empty().contains(list.last()));
    }
}

/// Emitting a triangle takes its entries off those that wait.
pub proof fn lemma_waiting_push(list: Seq<u32>, order: Seq<u32>, t: u32)
    requires
        !order.contains(t),
    ensures
        waiting(list, order.push(t)) == waiting(list, order) - list.to_multiset().count(t),
    decreases list.len(),
{
    list.to_multiset_ensures();
    if list.len() > 0 {
        let front = list.drop_last();
        let s = list.last();
        lemma_waiting_push(front, order, t);
        front.to_multiset_ensures();
        assert(list =~= front.push(s));
        assert(order.push(t)[order.len() as int] == t);
        assert(order.push(t).contains(s) == (order.contains(s) || s == t)) by {
            if order.contains(s) {
                let i = choose|i: int| 0 <= i < order.len() && order[i] == s;
                assert(order.push(t)[i] == s);
            }
        }
    } else {
        assert(!list.contains(t));
    }
}

/// Entries wait exactly if one of them is not in `order`.
pub proof fn lemma_waiting_positive(list: Seq<u32>, order: Seq<u32>)
    ensures
        0 <= waiting(list, order),
        waiting(list, order) > 0 <==> exists|i: int|
            0 <= i < list.len() && !order.contains(#[trigger] list[i]),
    decreases list.len(),
{
    if list.len() > 0 {
        let front = list.drop_last();
        lemma_waiting_positive(front, order);
        if waiting(front, order) > 0 {
            let i = choose|i: int| 0 <= i < front.len() && !order.contains(#[trigger] front[i]);
            assert(!order.contains(list[i]));
        }
        if exists|i: int| 0 <= i < list.len() && !order.contains(#[trigger] list[i]) {
            let i = choose|i: int| 0 <= i < list.len() && !order.contains(#[trigger] list[i]);
            if i < front.len() {
                assert(!order.contains(front[i]));
            }
        }
    }
}

/// What holds of a walk at any time between two triangles.
pub open spec fn fan_inv(indices: Seq<u32>, vertex_count: nat, cache_size: int, w: FifoWalk) -> bool {
    &&& w.live.len() == vertex_count
    &&& w.stamps.len() == vertex_count
    &&& w.order.no_duplicates()
    &&& forall|i: int| 0 <= i < w.order.len() ==> #[trigger] w.order[i] < mesh::face_count(indices)
    &&& forall|v: int|
        0 <= v < vertex_count ==> #[trigger] w.live[v] == waiting(
            adjacency::incident(indices, v, indices.len() as int),
            w.order,
        )
    &&& forall|v: int| 0 <= v < vertex_count ==> 0 <= #[trigger] w.stamps[v] < w.time
    &&& cache_size + 1 <= w.time <= cache_size + 1 + 3 * w.order.len()
    &&& w.stack.len() <= 3 * w.order.len()
    &&& forall|i: int| 0 <= i < w.stack.len() ==> #[trigger] w.stack[i] < vertex_count
}

/// What holds of a walk after `k` steps.
pub open spec fn walk_inv(
    indices: Seq<u32>,
    vertex_count: nat,
    cache_size: int,
    w: FifoWalk,
    k: nat,
) -> bool {
    &&& fan_inv(indices, vertex_count, cache_size, w)
    &&& 1 <= w.cursor <= vertex_count
    &&& forall|v: int| 0 <= v < w.cursor ==> #[trigger] w.live[v] == 0 || w.next == Some(v as u32)
    &&& match w.next {
        Some(v) => {
            &&& v < vertex_count
            &&& k == 0 || w.live[v as int] > 0
            &&& w.order.len() + 1 >= k
        },
        None => w.cursor == vertex_count,
    }
}

proof fn lemma_emitted(
    indices: Seq<u32>,
    vertex_count: nat,
    cache_size: int,
    w: FifoWalk,
    t: u32,
)
    requires
        mesh::is_mesh(indices, vertex_count as int),
        indices.len() <= u32::MAX,
        fan_inv(indices, vertex_count, cache_size, w),
        t < mesh::face_count(indices),
        !w.order.contains(t),
    ensures
        fan_inv(indices, vertex_count, cache_size, w.emitted(indices, t, cache_size)),
        forall|v: int|
            0 <= v < vertex_count ==> #[trigger] w.live[v] >= adjacency::corners_at(
                indices,
                v,
                t as int,
                indices.len() as int,
            ),
        forall|v: int|
            0 <= v < vertex_count ==> #[trigger] w.emitted(indices, t, cache_size).live[v]
                <= w.live[v],
{
    let n = indices.len() as int;
    let a = indices[3 * t as int] as int;
    let b = indices[3 * t + 1] as int;
    let c = indices[3 * t + 2] as int;
    let after = w.emitted(indices, t, cache_size);
    assert forall|v: int| 0 <= v < vertex_count implies {
        &&& #[trigger] after.live[v] == waiting(adjacency::incident(indices, v, n), after.order)
        &&& after.live[v] == w.live[v] - adjacency::corners_at(indices, v, t as int, n)
        &&& after.live[v] >= 0
    } by {
        let list = adjacency::incident(indices, v, n);
        lemma_waiting_push(list, w.order, t);
        adjacency::lemma_incident_count(indices, v, t, n);
        lemma_waiting_positive(list, after.order);
        assert(w.live[v] == waiting(list, w.order));
    }
    assert forall|v: int| 0 <= v < vertex_count implies #[trigger] w.live[v]
        >= adjacency::corners_at(indices, v, t as int, n) by {
        assert(after.live[v] >= 0);
    }
    assert(after.order.no_duplicates());
    let corners = mesh::triangle(indices, t as int);
    assert forall|i: int| 0 <= i < after.stack.len() implies #[trigger] after.stack[i]
        < vertex_count by {
        if i >= w.stack.len() {
            assert(after.stack[i] == corners[i - w.stack.len()]);
        }
    }
}

/// Fanning keeps what holds of a walk, goes on from it, and emits every triangle of the list.
pub proof fn lemma_fanned(
    indices: Seq<u32>,
    vertex_count: nat,
    cache_size: int,
    w: FifoWalk,
    list: Seq<u32>,
    n: int,
)
    requires
        mesh::is_mesh(indices, vertex_count as int),
        indices.len() <= u32::MAX,
        fan_inv(indices, vertex_count, cache_size, w),
        forall|i: int| 0 <= i < list.len() ==> #[trigger] list[i] < mesh::face_count(indices),
        0 <= n <= list.len(),
    ensures
        ({
            let f = w.fanned(indices, list, n, cache_size);
            &&& fan_inv(indices, vertex_count, cache_size, f)
            &&& f.cursor == w.cursor
            &&& f.next == w.next
            &&& f.order.len() >= w.order.len()
            &&& f.order.take(w.order.len() as int) == w.order
            &&& f.stack.len() >= w.stack.len()
            &&& f.stack.take(w.stack.len() as int) == w.stack
            &&& forall|i: int| 0 <= i < n ==> f.order.contains(#[trigger] list[i])
            &&& forall|v: int| 0 <= v < vertex_count ==> #[trigger] f.live[v] <= w.live[v]
        }),
    decreases n,
{
    if n > 0 {
        lemma_fanned(indices, vertex_count, cache_size, w, list, n - 1);
        let before = w.fanned(indices, list, n - 1, cache_size);
        let f = w.fanned(indices, list, n, cache_size);
        let t = list[n - 1];
        if !before.order.contains(t) {
            lemma_emitted(indices, vertex_count, cache_size, before, t);
            assert(f.order == before.order.push(t));
            assert(f.order.take(w.order.len() as int) =~= before.order.take(w.order.len() as int));
            assert(f.stack.take(w.stack.len() as int) =~= before.stack.take(w.stack.len() as int));
            assert(f.order[before.order.len() as int] == t);
            assert forall|i: int| 0 <= i < n implies f.order.contains(#[trigger] list[i]) by {
                if i < n - 1 {
                    assert(before.order.contains(list[i]));
                    let j = choose|j: int|
                        0 <= j < before.order.len() && before.order[j] == list[i];
                    assert(f.order[j] == list[i]);
                }
            }
        }
    } else {
        assert(w.order.take(w.order.len() as int) =~= w.order);
        assert(w.stack.take(w.stack.len() as int) =~= w.stack);
    }
}

/// The candidate chosen is one of those with triangles left that the walk prefers most, and
/// the first of them.
pub proof fn lemma_best_candidate(
    candidates: Seq<u32>,
    n: int,
    live: Seq<int>,
    stamps: Seq<int>,
    time: int,
    cache_size: int,
)
    requires
        0 <= n <= candidates.len(),
        forall|i: int|
            0 <= i < candidates.len() ==> stamps[#[trigger] candidates[i] as int] <= time,
    ensures
        ({
            let best = best_candidate(candidates, n, live, stamps, time, cache_size);
            &&& -1 <= best < n
            &&& best >= 0 ==> live[candidates[best] as int] > 0
            &&& best < 0 ==> forall|i: int|
                0 <= i < n ==> live[#[trigger] candidates[i] as int] <= 0
            &&& best >= 0 ==> forall|i: int|
                0 <= i < n ==> priority(
                    #[trigger] candidates[i] as int,
                    live,
                    stamps,
                    time,
                    cache_size,
                ) <= priority(candidates[best] as int, live, stamps, time, cache_size)
            &&& best >= 0 ==> forall|i: int|
                0 <= i < best ==> priority(
                    #[trigger] candidates[i] as int,
                    live,
                    stamps,
                    time,
                    cache_size,
                ) < priority(candidates[best] as int, live, stamps, time, cache_size)
        }),
    decreases n,
{
    if n > 0 {
        lemma_best_candidate(candidates, n - 1, live, stamps, time, cache_size);
    }
}

/// Candidate `i` has triangles left, entered the cache some time ago, and will still be there
/// after twice as many vertices have entered as it has corners left.
pub open spec fn is_staying(
    candidates: Seq<u32>,
    live: Seq<int>,
    stamps: Seq<int>,
    time: int,
    cache_size: int,
    i: int,
) -> bool {
    let age = time - stamps[candidates[i] as int];
    &&& 0 <= i < candidates.len()
    &&& live[candidates[i] as int] > 0
    &&& age > 0
    &&& age + 2 * live[candidates[i] as int] <= cache_size
}

/// For a cache of any size, the candidate chosen is the oldest one that will still be in the
/// cache, and the first of that age; if none will, it is the first one with triangles left.
pub proof fn lemma_oldest_staying_candidate(
    candidates: Seq<u32>,
    live: Seq<int>,
    stamps: Seq<int>,
    time: int,
    cache_size: int,
)
    requires
        forall|i: int|
            0 <= i < candidates.len() ==> stamps[#[trigger] candidates[i] as int] <= time,
    ensures
        ({
            let n = candidates.len() as int;
            let best = best_candidate(candidates, n, live, stamps, time, cache_size);
            if exists|i: int| #[trigger]
                is_staying(candidates, live, stamps, time, cache_size, i) {
                &&& is_staying(candidates, live, stamps, time, cache_size, best)
                &&& forall|i: int| #[trigger]
                    is_staying(candidates, live, stamps, time, cache_size, i) ==> {
                        let age = time - stamps[candidates[i] as int];
                        let oldest = time - stamps[candidates[best] as int];
                        age <= oldest && (i < best ==> age < oldest)
                    }
            } else if exists|i: int| 0 <= i < n && live[#[trigger] candidates[i] as int] > 0 {
                &&& 0 <= best < n
                &&& live[candidates[best] as int] > 0
                &&& forall|i: int| 0 <= i < best ==> live[#[trigger] candidates[i] as int] <= 0
            } else {
                best == -1
            }
        }),
{
    let n = candidates.len() as int;
    let best = best_candidate(candidates, n, live, stamps, time, cache_size);
    lemma_best_candidate(candidates, n, live, stamps, time, cache_size);
    assert forall|i: int| #[trigger]
        is_staying(candidates, live, stamps, time, cache_size, i) implies priority(
        candidates[i] as int,
        live,
        stamps,
        time,
        cache_size,
    ) == time - stamps[candidates[i] as int] by {
    }
    if best >= 0 {
        let p = priority(candidates[best] as int, live, stamps, time, cache_size);
        if exists|i: int| #[trigger] is_staying(candidates, live, stamps, time, cache_size, i) {
            let i = choose|i: int| #[trigger]
                is_staying(candidates, live, stamps, time, cache_size, i);
            assert(live[candidates[i] as int] > 0);
            assert(p > 0);
            assert(is_staying(candidates, live, stamps, time, cache_size, best));
        } else {
            assert(!is_staying(candidates, live, stamps, time, cache_size, best));
            assert(stamps[candidates[best] as int] <= time);
            assert(p == 0);
            assert forall|i: int| 0 <= i < best implies live[#[trigger] candidates[i] as int]
                <= 0 by {
                assert(stamps[candidates[i] as int] <= time);
            }
        }
    } else {
        assert forall|i: int| !#[trigger]
            is_staying(candidates, live, stamps, time, cache_size, i) by {
            if 0 <= i < n {
                assert(live[candidates[i] as int] <= 0);
            }
        }
    }
}

/// The entry taken from the stack has triangles left, and no entry above it has.
pub proof fn lemma_last_live(stack: Seq<u32>, n: int, live: Seq<int>)
    requires
        0 <= n <= stack.len(),
    ensures
        -1 <= last_live(stack, n, live) < n,
        last_live(stack, n, live) >= 0 ==> live[stack[last_live(stack, n, live)] as int] > 0,
        forall|i: int|
            last_live(stack, n, live) < i < n ==> live[#[trigger] stack[i] as int] <= 0,
    decreases n,
{
    if n > 0 && live[stack[n - 1] as int] <= 0 {
        lemma_last_live(stack, n - 1, live);
    }
}

/// The vertex taken in input order has triangles left, and none between the cursor and it has.
pub proof fn lemma_first_live(live: Seq<int>, cursor: int, n: int)
    requires
        0 <= cursor <= n,
    ensures
        cursor <= first_live(live, cursor, n) <= n,
        forall|v: int| cursor <= v < first_live(live, cursor, n) ==> #[trigger] live[v] <= 0,
        first_live(live, cursor, n) < n ==> live[first_live(live, cursor, n)] > 0,
    decreases n - cursor,
{
    if cursor < n && live[cursor] <= 0 {
        lemma_first_live(live, cursor + 1, n);
    }
}

/// A triangle listed for a vertex is one of the mesh, and a triangle of the mesh is listed for
/// its first corner.
pub proof fn lemma_incident(indices: Seq<u32>, v: int)
    requires
        indices.len() % 3 == 0,
        indices.len() <= u32::MAX,
    ensures
        forall|i: int|
            0 <= i < adjacency::incident(indices, v, indices.len() as int).len()
                ==> #[trigger] adjacency::incident(indices, v, indices.len() as int)[i]
                < mesh::face_count(indices),
        forall|t: u32|
            t < mesh::face_count(indices) && indices[3 * t as int] == v
                ==> #[trigger] adjacency::incident(indices, v, indices.len() as int).contains(t),
{
    let n = indices.len() as int;
    let list = adjacency::incident(indices, v, n);
    list.to_multiset_ensures();
    assert forall|i: int| 0 <= i < list.len() implies #[trigger] list[i] < mesh::face_count(
        indices,
    ) by {
        let t = list[i];
        assert(list.contains(t));
        adjacency::lemma_incident_count(indices, v, t, n);
    }
    assert forall|t: u32|
        t < mesh::face_count(indices) && indices[3 * t as int] == v implies #[trigger] list.contains(
        t,
    ) by {
        adjacency::lemma_incident_count(indices, v, t, n);
    }
}

/// A vertex with triangles left is one of the buffer.
pub proof fn lemma_live_is_used(
    indices: Seq<u32>,
    vertex_count: nat,
    cache_size: int,
    w: FifoWalk,
    v: int,
)
    requires
        fan_inv(indices, vertex_count, cache_size, w),
        0 <= v < vertex_count,
        w.live[v] > 0,
    ensures
        v <= u32::MAX,
        indices.contains(v as u32),
{
    let n = indices.len() as int;
    let list = adjacency::incident(indices, v, n);
    lemma_waiting_positive(list, w.order);
    if forall|i: int| 0 <= i < n ==> #[trigger] indices[i] != v {
        adjacency::lemma_no_corner(indices, v, n);
    }
}

proof fn lemma_walk_start(indices: Seq<u32>, vertex_count: nat, cache_size: int)
    requires
        mesh::is_mesh(indices, vertex_count as int),
        0 < indices.len() <= u32::MAX,
        0 <= cache_size,
    ensures
        walk_inv(
            indices,
            vertex_count,
            cache_size,
            walk_start(indices, vertex_count, cache_size),
            0,
        ),
{
    let w = walk_start(indices, vertex_count, cache_size);
    assert(indices[0] < vertex_count);
    assert forall|v: int| 0 <= v < vertex_count implies #[trigger] w.live[v] == waiting(
        adjacency::incident(indices, v, indices.len() as int),
        w.order,
    ) by {
        lemma_waiting_none(adjacency::incident(indices, v, indices.len() as int));
    }
}

/// A step keeps what holds of a walk.
pub proof fn lemma_walk_step(
    indices: Seq<u32>,
    vertex_count: nat,
    cache_size: int,
    w: FifoWalk,
    k: nat,
)
    requires
        mesh::is_mesh(indices, vertex_count as int),
        0 < indices.len() <= u32::MAX,
        0 <= cache_size,
        walk_inv(indices, vertex_count, cache_size, w, k),
    ensures
        walk_inv(
            indices,
            vertex_count,
            cache_size,
            walk_step(indices, cache_size, w),
            k + 1,
        ),
{
    if w.next is Some {
        let v = w.next->0;
        let n = indices.len() as int;
        let list = adjacency::incident(indices, v as int, n);
        lemma_incident(indices, v as int);
        lemma_fanned(indices, vertex_count, cache_size, w, list, list.len() as int);
        let f = w.fanned(indices, list, list.len() as int, cache_size);
        let candidates = f.stack.skip(w.stack.len() as int);
        assert forall|i: int| 0 <= i < candidates.len() implies #[trigger] candidates[i]
            < vertex_count && f.stamps[candidates[i] as int] <= f.time by {
            assert(candidates[i] == f.stack[w.stack.len() + i]);
        }
        lemma_best_candidate(
            candidates,
            candidates.len() as int,
            f.live,
            f.stamps,
            f.time,
            cache_size,
        );
        lemma_last_live(f.stack, f.stack.len() as int, f.live);
        lemma_first_live(f.live, f.cursor, vertex_count as int);
        // the triangles around `v` are all emitted
        lemma_waiting_positive(list, f.order);
        assert(f.live[v as int] == 0);
        // a vertex with triangles left makes the order grow
        if w.live[v as int] > 0 {
            lemma_waiting_positive(list, w.order);
            let i = choose|i: int| 0 <= i < list.len() && !w.order.contains(#[trigger] list[i]);
            assert(f.order.contains(list[i]));
            if f.order.len() == w.order.len() {
                assert(f.order =~= f.order.take(w.order.len() as int));
            }
        }
        let after = walk_step(indices, cache_size, w);
        assert forall|u: int| 0 <= u < after.cursor implies #[trigger] after.live[u] == 0 || after.next
            == Some(u as u32) by {
            lemma_waiting_positive(adjacency::incident(indices, u, n), f.order);
            assert(f.live[u] >= 0);
            if u < w.cursor {
                assert(w.live[u] == 0 || w.next == Some(u as u32));
                assert(f.live[u] <= w.live[u]);
                if w.next == Some(u as u32) && u > u32::MAX {
                    adjacency::lemma_no_corner(indices, u, n);
                }
            }
        }
        if after.next is Some && after.stack.len() == 0 && after.cursor < vertex_count {
            if f.live[after.cursor] > 0 && after.cursor > u32::MAX {
                lemma_waiting_positive(
                    adjacency::incident(indices, after.cursor, n),
                    f.order,
                );
                adjacency::lemma_no_corner(indices, after.cursor, n);
            }
        }
    }
}

/// A walk that goes on after `k` steps has a triangle left, and has emitted one in every step
/// but the first.
pub proof fn lemma_walk_after(indices: Seq<u32>, vertex_count: nat, cache_size: int, k: nat)
    requires
        mesh::is_mesh(indices, vertex_count as int),
        0 < indices.len() <= u32::MAX,
        0 <= cache_size,
    ensures
        walk_inv(
            indices,
            vertex_count,
            cache_size,
            walk_after(indices, vertex_count, cache_size, k),
            k,
        ),
        walk_after(indices, vertex_count, cache_size, k).next is Some ==> k <= mesh::face_count(
            indices,
        ),
        walk_after(indices, vertex_count, cache_size, k).next is None ==> mesh::is_permutation(
            walk_after(indices, vertex_count, cache_size, k).order,
            mesh::face_count(indices),
        ),
    decreases k,
{
    let n = mesh::face_count(indices);
    let w = walk_after(indices, vertex_count, cache_size, k);
    if k == 0 {
        lemma_walk_start(indices, vertex_count, cache_size);
    } else {
        lemma_walk_after(indices, vertex_count, cache_size, (k - 1) as nat);
        lemma_walk_step(
            indices,
            vertex_count,
            cache_size,
            walk_after(indices, vertex_count, cache_size, (k - 1) as nat),
            (k - 1) as nat,
        );
    }
    if w.next is Some {
        if k > 0 {
            let v = w.next->0 as int;
            let list = adjacency::incident(indices, v, indices.len() as int);
            assert(w.live[v] > 0);
            lemma_waiting_positive(list, w.order);
            let i = choose|i: int| 0 <= i < list.len() && !w.order.contains(#[trigger] list[i]);
            lemma_incident(indices, v);
            mesh::lemma_missing_one(w.order, n, list[i]);
        }
    } else {
        assert forall|t: u32| t < n implies #[trigger] w.order.contains(t) by {
            let v = indices[3 * t as int] as int;
            let list = adjacency::incident(indices, v, indices.len() as int);
            lemma_incident(indices, v);
            assert(list.contains(t));
            let i = choose|i: int| 0 <= i < list.len() && list[i] == t;
            assert(w.live[v] == 0);
            lemma_waiting_positive(list, w.order);
        }
        mesh::lemma_missing_none(w.order, n);
    }
}

/// A walk that has ended stays as it is.
pub proof fn lemma_walk_ended(indices: Seq<u32>, vertex_count: nat, cache_size: int, k: nat, m: nat)
    requires
        walk_after(indices, vertex_count, cache_size, k).next is None,
        k <= m,
    ensures
        walk_after(indices, vertex_count, cache_size, m) == walk_after(
            indices,
            vertex_count,
            cache_size,
            k,
        ),
    decreases m,
{
    if k < m {
        lemma_walk_ended(indices, vertex_count, cache_size, k, (m - 1) as nat);
    }
}

/// The walk emits every triangle of the mesh exactly once.
pub proof fn lemma_fifo_order_is_permutation(
    indices: Seq<u32>,
    vertex_count: nat,
    cache_size: int,
)
    requires
        mesh::is_mesh(indices, vertex_count as int),
        indices.len() <= u32::MAX,
        0 <= cache_size,
    ensures
        mesh::is_permutation(
            fifo_order(indices, vertex_count, cache_size),
            mesh::face_count(indices),
        ),
{
    if indices.len() > 0 {
        lemma_walk_after(indices, vertex_count, cache_size, mesh::face_count(indices) + 1);
    } else {
        let start = walk_after(indices, vertex_count, cache_size, 0);
        assert(walk_after(indices, vertex_count, cache_size, 1) == walk_step(
            indices,
            cache_size,
            start,
        ));
        assert(fifo_order(indices, vertex_count, cache_size) =~= Seq::<u32>::empty());
    }
}

/// The candidate that the walk prefers to go on at, or `None` if it prefers none at all. A
/// candidate with triangles left counts as preferred, unless it is stamped ahead of time.
pub fn get_next_vertex_neighbour(
    next_candidates: &[u32],
    live_triangles: &[u32],
    cache_timestamps: &[u64],
    timestamp: u64,
    cache_size: u32,
) -> (vertex: Option<u32>)
    requires
        forall|i: int|
            0 <= i < next_candidates@.len() ==> #[trigger] next_candidates@[i]
                < live_triangles@.len(),
        forall|i: int|
            0 <= i < next_candidates@.len() && live_triangles@[next_candidates@[i] as int] > 0 ==> {
                &&& #[trigger] next_candidates@[i] < cache_timestamps@.len()
                &&& cache_timestamps@[next_candidates@[i] as int] <= timestamp + 2
                    * live_triangles@[next_candidates@[i] as int]
            },
    ensures
        ({
            let best = best_candidate(
                next_candidates@,
                next_candidates@.len() as int,
                util::ints(live_triangles@),
                longs(cache_timestamps@),
                timestamp as int,
                cache_size as int,
            );
            vertex == (if best < 0 {
                None
            } else {
                Some(next_candidates@[best])
            })
        }),
{
    let ghost live = util::ints(live_triangles@);
    let ghost stamps = longs(cache_timestamps@);
    let ghost mut best: int = -1;
    let mut best_candidate: Option<u32> = None;
    let mut best_priority: i128 = -1;
    let n: usize = next_candidates.len();
    let mut i: usize = 0;
    while i < n
        invariant
            i <= n,
            n == next_candidates@.len(),
            forall|j: int|
                0 <= j < next_candidates@.len() ==> #[trigger] next_candidates@[j]
                    < live_triangles@.len(),
            forall|j: int|
                0 <= j < next_candidates@.len() && live_triangles@[next_candidates@[j] as int] > 0
                    ==> {
                    &&& #[trigger] next_candidates@[j] < cache_timestamps@.len()
                    &&& cache_timestamps@[next_candidates@[j] as int] <= timestamp + 2
                        * live_triangles@[next_candidates@[j] as int]
                },
            live == util::ints(live_triangles@),
            stamps == longs(cache_timestamps@),
            -1 <= best < i,
            best == self::best_candidate(
                next_candidates@,
                i as int,
                live,
                stamps,
                timestamp as int,
                cache_size as int,
            ),
            best_candidate == (if best < 0 {
                None
            } else {
                Some(next_candidates@[best])
            }),
            best_priority == (if best < 0 {
                -1
            } else {
                priority(
                    next_candidates@[best] as int,
                    live,
                    stamps,
                    timestamp as int,
                    cache_size as int,
                )
            }),
            best_priority >= -1,
        decreases n - i,
    {
        let vertex: usize = next_candidates[i] as usize;

        // otherwise we don't need to process it
        if live_triangles[vertex] > 0 {
            let mut priority: i128 = 0;
            let stamp: u64 = cache_timestamps[vertex];

            // will it be in cache after fanning?
            if 2 * (live_triangles[vertex] as u128) + timestamp as u128 - stamp as u128
                <= cache_size as u128 {
                priority = timestamp as i128 - stamp as i128;  // position in cache
            }
            if priority > best_priority {
                best_candidate = Some(vertex as u32);
                best_priority = priority;
                proof {
                    best = i as int;
                }
            }
        }
        i += 1;
    }
    best_candidate
}

/// The numbers of `s`, as integers.
pub open spec fn longs(s: Seq<u64>) -> Seq<int> {
    Seq::new(s.len(), |i: int| s[i] as int)
}

/// A vertex to restart from: the last one among the first `dead_end_top` entries of
/// `dead_end` that has triangles left, or else the next one in input order from `input_cursor`
/// on. The stack is cut before the entry taken, or else emptied, and the cursor moves on to the
/// vertex taken. A vertex is told by the low 32 bits of its number.
pub fn get_next_vertex_dead_end(
    dead_end: &[u32],
    dead_end_top: &mut usize,
    input_cursor: &mut usize,
    live_triangles: &[u32],
    vertex_count: usize,
) -> (vertex: Option<u32>)
    requires
        *old(dead_end_top) <= dead_end@.len(),
        ({
            let live = util::ints(live_triangles@);
            let top = last_live(dead_end@, *old(dead_end_top) as int, live);
            let cursor = *old(input_cursor) as int;
            let n = live_triangles@.len() as int;
            // the entries and the vertices up to the one taken have a number of triangles
            &&& forall|i: int|
                0 <= i < *old(dead_end_top) && top <= i ==> #[trigger] dead_end@[i] < n
            &&& top < 0 && cursor < vertex_count ==> vertex_count <= n || first_live(
                live,
                cursor,
                n,
            ) < n
        }),
    ensures
        ({
            let live = util::ints(live_triangles@);
            let top = last_live(dead_end@, *old(dead_end_top) as int, live);
            let cursor = first_live(live, *old(input_cursor) as int, vertex_count as int);
            if top >= 0 {
                &&& vertex == Some(dead_end@[top])
                &&& *final(dead_end_top) == top
                &&& *final(input_cursor) == *old(input_cursor)
            } else {
                &&& vertex == (if cursor < vertex_count {
                    Some(cursor as u32)
                } else {
                    None
                })
                &&& *final(dead_end_top) == 0
                &&& *final(input_cursor) == cursor
            }
        }),
{
    let ghost live = util::ints(live_triangles@);
    // check dead-end stack
    while *dead_end_top != 0
        invariant
            *dead_end_top <= *old(dead_end_top) <= dead_end@.len(),
            *input_cursor == *old(input_cursor),
            live == util::ints(live_triangles@),
            forall|i: int|
                0 <= i < *old(dead_end_top) && last_live(
                    dead_end@,
                    *old(dead_end_top) as int,
                    live,
                ) <= i ==> #[trigger] dead_end@[i] < live_triangles@.len(),
            last_live(dead_end@, *dead_end_top as int, live) == last_live(
                dead_end@,
                *old(dead_end_top) as int,
                live,
            ),
        decreases *dead_end_top,
    {
        proof {
            lemma_last_live(dead_end@, *dead_end_top as int, live);
        }
        *dead_end_top -= 1;
        let vertex: u32 = dead_end[*dead_end_top];
        if live_triangles[vertex as usize] > 0 {
            return Some(vertex);
        }
    }

    // input order
    while *input_cursor < vertex_count
        invariant
            *dead_end_top == 0,
            last_live(dead_end@, *old(dead_end_top) as int, live) < 0,
            live == util::ints(live_triangles@),
            *input_cursor < vertex_count ==> vertex_count <= live_triangles@.len() || first_live(
                live,
                *input_cursor as int,
                live_triangles@.len() as int,
            ) < live_triangles@.len(),
            first_live(live, *input_cursor as int, vertex_count as int) == first_live(
                live,
                *old(input_cursor) as int,
                vertex_count as int,
            ),
        decreases vertex_count - *input_cursor,
    {
        if live_triangles[*input_cursor] > 0 {
            return Some(*input_cursor as u32);
        }
        *input_cursor += 1;
    }
    None
}

/// The counts and the cache of a walk.
struct FifoState {
    /// For each vertex, the number of corners there that belong to triangles not emitted.
    live_triangles: Vec<u32>,
    /// For each vertex, the time at which it last entered the cache, or 0.
    cache_timestamps: Vec<u64>,
    /// The time at which the next vertex enters the cache.
    timestamp: u64,
}

impl FifoState {
    /// The state is that of the walk `w`.
    spec fn is_of(self, w: FifoWalk) -> bool {
        &&& util::ints(self.live_triangles@) == w.live
        &&& longs(self.cache_timestamps@) == w.stamps
        &&& self.timestamp == w.time
    }

    /// Counts off a corner at `vertex`, and brings `vertex` into the cache unless it is there.
    fn visit(&mut self, vertex: usize, cache_size: u32, Ghost(w): Ghost<FifoWalk>)
        requires
            old(self).is_of(w),
            vertex < w.live.len(),
            w.live.len() == w.stamps.len(),
            w.live[vertex as int] > 0,
            w.stamps[vertex as int] <= w.time,
            w.time < u64::MAX,
        ensures
            final(self).is_of(w.visited(vertex as int, cache_size as int)),
    {
        let ghost after = w.visited(vertex as int, cache_size as int);
        assert(w.live[vertex as int] == self.live_triangles@[vertex as int]);
        assert(w.stamps[vertex as int] == self.cache_timestamps@[vertex as int]);
        // update live triangle counts
        self.live_triangles[vertex] = self.live_triangles[vertex] - 1;

        // update cache info
        // if vertex is not in cache, put it in cache
        if self.timestamp - self.cache_timestamps[vertex] > cache_size as u64 {
            self.cache_timestamps[vertex] = self.timestamp;
            self.timestamp += 1;
        }
        assert(util::ints(self.live_triangles@) =~= after.live);
        assert(longs(self.cache_timestamps@) =~= after.stamps);
    }
}

/// Reorders indices to reduce the number of GPU vertex shader invocations (for FIFO caches).
///
/// Generally takes about three times less time to optimize meshes than the greedy walk of
/// [optimize_vertex_cache](crate::vertex::greedy::optimize_vertex_cache) but produces inferior
/// results. If the index buffer contains multiple ranges for multiple draw calls, this function
/// needs to be called on each range individually. `destination` must have room for the
/// resulting index buffer (`indices.len()` elements), and `cache_size` should be less than the
/// actual GPU cache size to avoid cache thrashing.
pub fn optimize_vertex_cache_fifo(
    destination: &mut [u32],
    indices: &[u32],
    vertex_count: usize,
    cache_size: u32,
)
    requires
        mesh::is_reorderable(indices@, vertex_count as int, old(destination)@.len() as int),
        cache_size >= 3,
    ensures
        final(destination)@ == (if indices@.len() == 0 || vertex_count == 0 {
            old(destination)@
        } else {
            mesh::overwritten(
                old(destination)@,
                mesh::reordered(
                    indices@,
                    fifo_order(indices@, vertex_count as nat, cache_size as int),
                ),
            )
        }),
        indices@.len() > 0 && vertex_count > 0 ==> mesh::is_rearrangement(
            final(destination)@.take(indices@.len() as int),
            indices@,
        ),
{
    // guard for empty meshes
    if indices.len() == 0 || vertex_count == 0 {
        return ;
    }
    let face_count: usize = indices.len() / 3;
    let ghost vc = vertex_count as nat;
    let ghost cs = cache_size as int;

    // build adjacency information
    let mut adjacency: TriangleAdjacency = TriangleAdjacency::new();
    build_triangle_adjacency(&mut adjacency, indices, vertex_count);

    // live triangle counts and cache time stamps
    let mut state: FifoState = FifoState {
        live_triangles: adjacency.counts.clone(),
        cache_timestamps: vec![0; vertex_count],
        timestamp: cache_size as u64 + 1,
    };

    // dead-end stack
    let mut dead_end: Vec<u32> = vec![0; indices.len()];
    let mut dead_end_top: usize = 0;

    // emitted flags
    let mut emitted_flags: Vec<bool> = vec![false; face_count];

    let mut current_vertex: Option<u32> = Some(0);
    let mut input_cursor: usize = 1;  // vertex to restart from in case of dead-end
    let mut output_triangle: usize = 0;

    let ghost mut w = walk_start(indices@, vc, cs);
    let ghost mut k: nat = 0;
    proof {
        assert forall|v: int| 0 <= v < vertex_count implies #[trigger] adjacency.counts@[v]
            == adjacency::incident(indices@, v, indices@.len() as int).len() by {
            assert(adjacency.lists()[v] == adjacency.list(v));
            assert(adjacency.offsets@[v] + adjacency.counts@[v] <= adjacency.data@.len());
        }
        assert(util::ints(state.live_triangles@) =~= w.live);
        assert(longs(state.cache_timestamps@) =~= w.stamps);
        assert(emitted_flags@ =~= mesh::emitted_flags(w.order, face_count as nat));
        assert(dead_end@.take(0) =~= w.stack);
        assert(destination@ =~= mesh::overwritten(
            old(destination)@,
            mesh::reordered(indices@, w.order),
        ));
    }
    while current_vertex.is_some()
        invariant
            mesh::is_mesh(indices@, vertex_count as int),
            0 < indices@.len() <= u32::MAX,
            indices@.len() <= old(destination)@.len(),
            destination@.len() == old(destination)@.len(),
            face_count == mesh::face_count(indices@),
            vc == vertex_count,
            cs == cache_size,
            adjacency.wf(),
            adjacency.counts@.len() == vertex_count,
            adjacency.lists() == adjacency::incidence(indices@, vc),
            k <= face_count + 1,
            w == walk_after(indices@, vc, cs, k),
            state.is_of(w),
            dead_end@.len() == indices@.len(),
            dead_end_top <= dead_end@.len(),
            dead_end@.take(dead_end_top as int) == w.stack,
            emitted_flags@ == mesh::emitted_flags(w.order, face_count as nat),
            input_cursor == w.cursor,
            current_vertex == w.next,
            output_triangle == w.order.len(),
            destination@ == mesh::overwritten(
                old(destination)@,
                mesh::reordered(indices@, w.order),
            ),
        decreases face_count + 1 - k,
    {
        proof {
            lemma_walk_after(indices@, vc, cs, k);
        }
        let vertex: usize = current_vertex.unwrap() as usize;
        let next_candidates_begin: usize = dead_end_top;

        // emit all vertex neighbours
        assert(adjacency.offsets@[vertex as int] + adjacency.counts@[vertex as int]
            <= adjacency.data.len());
        let o: usize = adjacency.offsets[vertex] as usize;
        let c: usize = adjacency.counts[vertex] as usize;
        let neighbours: &[u32] = &adjacency.data.as_slice()[o..o + c];
        let ghost list = adjacency::incident(indices@, vertex as int, indices@.len() as int);
        proof {
            assert(adjacency.lists()[vertex as int] == adjacency.list(vertex as int));
            assert(neighbours@ == list);
            lemma_incident(indices@, vertex as int);
        }
        let ghost mut f = w;
        let mut i: usize = 0;
        while i < c
            invariant
                i <= c,
                c == list.len(),
                neighbours@ == list,
                mesh::is_mesh(indices@, vertex_count as int),
                0 < indices@.len() <= u32::MAX,
                indices@.len() <= old(destination)@.len(),
                destination@.len() == old(destination)@.len(),
                face_count == mesh::face_count(indices@),
                vc == vertex_count,
                cs == cache_size,
                fan_inv(indices@, vc, cs, w),
                forall|j: int| 0 <= j < list.len() ==> #[trigger] list[j] < face_count,
                f == w.fanned(indices@, list, i as int, cs),
                state.is_of(f),
                dead_end@.len() == indices@.len(),
                dead_end_top <= dead_end@.len(),
                dead_end@.take(dead_end_top as int) == f.stack,
                emitted_flags@ == mesh::emitted_flags(f.order, face_count as nat),
                output_triangle == f.order.len(),
                destination@ == mesh::overwritten(
                    old(destination)@,
                    mesh::reordered(indices@, f.order),
                ),
            decreases c - i,
        {
            let triangle: usize = neighbours[i] as usize;
            let ghost t = triangle as u32;
            proof {
                lemma_fanned(indices@, vc, cs, w, list, i as int);
                assert(emitted_flags@[triangle as int] == f.order.contains(t));
            }
            if !emitted_flags[triangle] {
                let ghost f0 = f;
                let ghost dest0 = destination@;
                let ghost dead0 = dead_end@;
                proof {
                    mesh::lemma_missing_one(f.order, face_count as nat, t);
                    lemma_emitted(indices@, vc, cs, f, t);
                    f = f.emitted(indices@, t, cs);
                    assert(3 * triangle + 2 < indices.len());
                    assert(3 * output_triangle + 2 < destination.len());
                    assert(f0.stack.len() == dead_end_top);
                    assert(dead_end_top + 2 < dead_end.len());
                }
                let a: u32 = indices[triangle * 3];
                let b: u32 = indices[triangle * 3 + 1];
                let c: u32 = indices[triangle * 3 + 2];

                // output indices
                destination[output_triangle * 3] = a;
                destination[output_triangle * 3 + 1] = b;
                destination[output_triangle * 3 + 2] = c;
                proof {
                    mesh::lemma_overwritten_push(
                        dest0,
                        destination@,
                        old(destination)@,
                        indices@,
                        f0.order,
                        t,
                    );
                }
                output_triangle += 1;

                // update dead-end stack
                dead_end[dead_end_top] = a;
                dead_end[dead_end_top + 1] = b;
                dead_end[dead_end_top + 2] = c;
                dead_end_top += 3;
                proof {
                    assert forall|j: int| 0 <= j < dead_end_top implies #[trigger] dead_end@.take(
                        dead_end_top as int,
                    )[j] == f.stack[j] by {
                        if j < f0.stack.len() {
                            assert(dead0.take(f0.stack.len() as int)[j] == dead0[j]);
                        } else {
                            assert(f.stack[j] == mesh::triangle(indices@, t as int)[j
                                - f0.stack.len()]);
                        }
                    }
                    assert(dead_end@.take(dead_end_top as int) =~= f.stack);
                }
                let ghost v0 = FifoWalk {
                    order: f0.order.push(t),
                    stack: f0.stack + mesh::triangle(indices@, t as int),
                    ..f0
                };
                proof {
                    assert(f0.live[a as int] >= adjacency::corners_at(
                        indices@,
                        a as int,
                        t as int,
                        indices@.len() as int,
                    ));
                    assert(f0.live[b as int] >= adjacency::corners_at(
                        indices@,
                        b as int,
                        t as int,
                        indices@.len() as int,
                    ));
                    assert(f0.live[c as int] >= adjacency::corners_at(
                        indices@,
                        c as int,
                        t as int,
                        indices@.len() as int,
                    ));
                }
                state.visit(a as usize, cache_size, Ghost(v0));
                let ghost v1 = v0.visited(a as int, cs);
                state.visit(b as usize, cache_size, Ghost(v1));
                let ghost v2 = v1.visited(b as int, cs);
                state.visit(c as usize, cache_size, Ghost(v2));

                // update emitted flags
                emitted_flags[triangle] = true;
                proof {
                    mesh::lemma_flags_push(f0.order, t, face_count as nat);
                }
            }
            i += 1;
        }
        proof {
            lemma_fanned(indices@, vc, cs, w, list, list.len() as int);
            lemma_walk_step(indices@, vc, cs, w, k);
        }

        // next candidates are the ones we pushed to dead-end stack just now
        let next_candidates: &[u32] = &dead_end.as_slice()[next_candidates_begin..dead_end_top];
        proof {
            assert(next_candidates@ =~= f.stack.skip(w.stack.len() as int)) by {
                assert(f.stack.len() == dead_end_top);
                assert forall|j: int| 0 <= j < f.stack.len() implies f.stack[j] == dead_end@[j] by {
                    assert(dead_end@.take(dead_end_top as int)[j] == dead_end@[j]);
                }
            }
            assert forall|j: int| 0 <= j < next_candidates@.len() implies #[trigger] next_candidates@[j]
                < vertex_count by {
                assert(next_candidates@[j] == f.stack[w.stack.len() + j]);
            }
            assert forall|v: int| 0 <= v < vertex_count implies #[trigger] state.cache_timestamps@[v]
                <= state.timestamp by {
                assert(f.stamps[v] == state.cache_timestamps@[v]);
            }
        }

        // get next vertex
        let neighbour: Option<u32> = get_next_vertex_neighbour(
            next_candidates,
            state.live_triangles.as_slice(),
            state.cache_timestamps.as_slice(),
            state.timestamp,
            cache_size,
        );
        proof {
            lemma_best_candidate(
                next_candidates@,
                next_candidates@.len() as int,
                f.live,
                f.stamps,
                f.time,
                cs,
            );
        }
        current_vertex = neighbour;
        if neighbour.is_none() || neighbour.unwrap() == u32::MAX {
            proof {
                assert forall|j: int| 0 <= j < dead_end_top implies #[trigger] dead_end@[j]
                    < vertex_count by {
                    assert(dead_end@[j] == f.stack[j]);
                }
                lemma_last_live_prefix(f.stack, dead_end@, f.stack.len() as int, f.live);
                lemma_last_live(f.stack, f.stack.len() as int, f.live);
            }
            current_vertex = get_next_vertex_dead_end(
                dead_end.as_slice(),
                &mut dead_end_top,
                &mut input_cursor,
                state.live_triangles.as_slice(),
                vertex_count,
            );
        }
        proof {
            w = walk_step(indices@, cs, w);
            k = k + 1;
            assert(dead_end@.take(dead_end_top as int) =~= w.stack);
        }
    }
    proof {
        lemma_walk_after(indices@, vc, cs, k);
        lemma_walk_ended(indices@, vc, cs, k, (face_count + 1) as nat);
        mesh::lemma_overwritten_rearranges(old(destination)@, indices@, w.order);
    }
}

proof fn lemma_last_live_prefix(stack: Seq<u32>, longer: Seq<u32>, n: int, live: Seq<int>)
    requires
        n <= stack.len() <= longer.len(),
        forall|i: int| 0 <= i < stack.len() ==> #[trigger] stack[i] == longer[i],
    ensures
        last_live(stack, n, live) == last_live(longer, n, live),
    decreases n,
{
    if n > 0 {
        assert(stack[n - 1] == longer[n - 1]);
        lemma_last_live_prefix(stack, longer, n - 1, live);
    }
}

} // verus!
