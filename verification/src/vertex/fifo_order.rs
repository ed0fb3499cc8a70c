//! What the order for a first-in first-out cache satisfies.

use crate::mesh;
use crate::vertex::adjacency;
use crate::vertex::fifo;
use crate::vertex::fifo::FifoWalk;
use crate::vertex::misses;
use vstd::prelude::*;
use vstd::set_lib::*;

verus! {

/// The corners waiting at a vertex are counted by its triangles that wait.
pub proof fn lemma_corners_waiting(indices: Seq<u32>, order: Seq<u32>, v: int, n: int)
    requires
        0 <= n <= indices.len(),
    ensures
        mesh::corners_waiting(indices, order, v, n).finite(),
        mesh::corners_waiting(indices, order, v, n).len() == fifo::waiting(
            adjacency::incident(indices, v, n),
            order,
        ),
    decreases n,
{
    let set = mesh::corners_waiting(indices, order, v, n);
    lemma_int_range(0, n);
    if n == 0 {
        assert(set =~= Set::<int>::empty());
    } else {
        lemma_corners_waiting(indices, order, v, n - 1);
        let before = mesh::corners_waiting(indices, order, v, n - 1);
        let list = adjacency::incident(indices, v, n);
        if indices[n - 1] == v {
            assert(list.drop_last() =~= adjacency::incident(indices, v, n - 1));
            if order.contains(((n - 1) / 3) as u32) {
                assert(set =~= before);
            } else {
                assert(set =~= before.insert(n - 1));
            }
        } else {
            assert(set =~= before);
        }
    }
}

/// The walk counts the corners left at each vertex: those that belong to triangles not emitted.
pub proof fn lemma_live_is_corners_left(
    indices: Seq<u32>,
    vertex_count: nat,
    cache_size: int,
    k: nat,
    v: int,
)
    requires
        mesh::is_mesh(indices, vertex_count as int),
        0 < indices.len() <= u32::MAX,
        0 <= cache_size,
        0 <= v < vertex_count,
    ensures
        ({
            let w = fifo::walk_after(indices, vertex_count, cache_size, k);
            w.live[v] == mesh::corners_left(indices, w.order, v)
        }),
{
    let w = fifo::walk_after(indices, vertex_count, cache_size, k);
    fifo::lemma_walk_after(indices, vertex_count, cache_size, k);
    lemma_corners_waiting(indices, w.order, v, indices.len() as int);
    assert(w.live[v] == fifo::waiting(
        adjacency::incident(indices, v, indices.len() as int),
        w.order,
    ));
}

/// The stamps tell the misses of a cache that has fetched `corners`: entry `i` of the misses
/// entered at time `cache_size + 1 + i`.
spec fn is_stamped(stamps: Seq<int>, time: int, corners: Seq<u32>, cache_size: int) -> bool {
    let log = misses::misses(corners, cache_size);
    &&& time == cache_size + 1 + log.len()
    &&& forall|i: int|
        0 <= i < log.len() ==> #[trigger] log[i] < stamps.len() && stamps[log[i] as int]
            >= cache_size + 1 + i
    &&& forall|v: u32|
        v < stamps.len() ==> {
            let i = #[trigger] stamps[v as int] - cache_size - 1;
            stamps[v as int] == 0 || (0 <= i < log.len() && log[i] == v)
        }
}

proof fn lemma_visited(w: FifoWalk, corners: Seq<u32>, cache_size: int, v: u32)
    requires
        0 < cache_size,
        is_stamped(w.stamps, w.time, corners, cache_size),
        v < w.stamps.len(),
    ensures
        is_stamped(
            w.visited(v as int, cache_size).stamps,
            w.visited(v as int, cache_size).time,
            corners.push(v),
            cache_size,
        ),
{
    let log = misses::misses(corners, cache_size);
    let last = misses::latest(log, cache_size);
    let d: int = if log.len() > cache_size { log.len() - cache_size } else { 0 };
    assert(corners.push(v).drop_last() =~= corners);
    assert(corners.push(v).last() == v);
    if last.contains(v) {
        let i = choose|i: int| 0 <= i < last.len() && last[i] == v;
        assert(log[d + i] == v);
    }
    if w.time - w.stamps[v as int] <= cache_size {
        let i = w.stamps[v as int] - cache_size - 1;
        assert(log[i] == v);
        assert(last[i - d] == v);
    }
    let after = w.visited(v as int, cache_size);
    let log1 = misses::misses(corners.push(v), cache_size);
    if !last.contains(v) {
        assert(log1 == log.push(v));
        assert forall|i: int| 0 <= i < log1.len() implies #[trigger] log1[i]
            < after.stamps.len() && after.stamps[log1[i] as int] >= cache_size + 1 + i by {
            if i < log.len() {
                assert(log1[i] == log[i]);
            }
        }
    }
}

/// Emitting a triangle draws its corners behind the others.
pub proof fn lemma_reordered_push(indices: Seq<u32>, order: Seq<u32>, t: u32)
    requires
        3 * t + 3 <= indices.len(),
    ensures
        mesh::reordered(indices, order.push(t)) == mesh::reordered(indices, order)
            + mesh::triangle(indices, t as int),
{
    let m = order.len() as int;
    let left = mesh::reordered(indices, order.push(t));
    let right = mesh::reordered(indices, order) + mesh::triangle(indices, t as int);
    assert forall|i: int| 0 <= i < left.len() implies #[trigger] left[i] == right[i] by {
        if i < 3 * m {
            assert(i / 3 < m);
        } else {
            assert(i / 3 == m && i % 3 == i - 3 * m);
        }
    }
    assert(left =~= right);
}

/// What holds between the start `w` of a step and the state `f` within the step.
spec fn is_fanning(
    indices: Seq<u32>,
    cache_size: int,
    w: FifoWalk,
    f: FifoWalk,
    list: Seq<u32>,
    n: int,
) -> bool {
    let out = mesh::reordered(indices, f.order);
    let fresh = f.order.skip(w.order.len() as int);
    &&& is_stamped(f.stamps, f.time, out, cache_size)
    &&& f.order.len() >= w.order.len()
    &&& f.order.take(w.order.len() as int) == w.order
    &&& f.stack.len() >= w.stack.len()
    &&& f.stack == w.stack + out.skip(3 * w.order.len() as int)
    &&& forall|i: int, j: int| 0 <= i < j < fresh.len() ==> #[trigger] fresh[i] < #[trigger] fresh[j]
    &&& forall|i: int|
        0 <= i < fresh.len() ==> list.contains(#[trigger] fresh[i]) && !w.order.contains(fresh[i])
    &&& n > 0 ==> forall|i: int| 0 <= i < fresh.len() ==> #[trigger] fresh[i] <= list[n - 1]
    &&& n == 0 ==> fresh.len() == 0
}

proof fn lemma_fanning(
    indices: Seq<u32>,
    vertex_count: nat,
    cache_size: int,
    w: FifoWalk,
    list: Seq<u32>,
    n: int,
)
    requires
        mesh::is_mesh(indices, vertex_count as int),
        indices.len() <= u32::MAX,
        0 < cache_size,
        fifo::fan_inv(indices, vertex_count, cache_size, w),
        is_stamped(w.stamps, w.time, mesh::reordered(indices, w.order), cache_size),
        forall|i: int| 0 <= i < list.len() ==> #[trigger] list[i] < mesh::face_count(indices),
        forall|i: int, j: int| 0 <= i < j < list.len() ==> #[trigger] list[i] <= #[trigger] list[j],
        0 <= n <= list.len(),
    ensures
        is_fanning(indices, cache_size, w, w.fanned(indices, list, n, cache_size), list, n),
    decreases n,
{
    let f = w.fanned(indices, list, n, cache_size);
    let m = w.order.len() as int;
    if n == 0 {
        let out = mesh::reordered(indices, w.order);
        assert(out.skip(3 * m) =~= Seq::<u32>::empty());
        assert(w.stack + out.skip(3 * m) =~= w.stack);
        assert(w.order.take(m) =~= w.order);
    } else {
        lemma_fanning(indices, vertex_count, cache_size, w, list, n - 1);
        fifo::lemma_fanned(indices, vertex_count, cache_size, w, list, n - 1);
        let g = w.fanned(indices, list, n - 1, cache_size);
        let t = list[n - 1];
        let fresh0 = g.order.skip(m);
        let fresh = f.order.skip(m);
        if n > 1 {
            assert(list[n - 2] <= list[n - 1]);
        }
        if !g.order.contains(t) {
            let out0 = mesh::reordered(indices, g.order);
            let out = mesh::reordered(indices, f.order);
            let corners = mesh::triangle(indices, t as int);
            assert(f.order == g.order.push(t));
            lemma_reordered_push(indices, g.order, t);
            let x = indices[3 * t as int];
            let y = indices[3 * t + 1];
            let z = indices[3 * t + 2];
            let g0 = FifoWalk { order: g.order.push(t), stack: g.stack + corners, ..g };
            lemma_visited(g0, out0, cache_size, x);
            let g1 = g0.visited(x as int, cache_size);
            lemma_visited(g1, out0.push(x), cache_size, y);
            let g2 = g1.visited(y as int, cache_size);
            lemma_visited(g2, out0.push(x).push(y), cache_size, z);
            assert(out =~= out0.push(x).push(y).push(z));
            assert(f.stack =~= w.stack + out.skip(3 * m));
            assert(f.order.take(m) =~= g.order.take(m));
            assert(fresh =~= fresh0.push(t));
            assert(!w.order.contains(t)) by {
                if w.order.contains(t) {
                    let i = choose|i: int| 0 <= i < w.order.len() && w.order[i] == t;
                    assert(g.order.take(m)[i] == g.order[i]);
                }
            }
            assert forall|i: int, j: int| 0 <= i < j < fresh.len() implies #[trigger] fresh[i]
                < #[trigger] fresh[j] by {
                if j == fresh0.len() {
                    assert(fresh[i] == fresh0[i]);
                    assert(g.order[m + i] == fresh0[i]);
                    assert(fresh0[i] != t);
                } else {
                    assert(fresh[i] == fresh0[i] && fresh[j] == fresh0[j]);
                }
            }
            assert forall|i: int| 0 <= i < fresh.len() implies list.contains(#[trigger] fresh[i])
                && !w.order.contains(fresh[i]) && fresh[i] <= t by {
                if i < fresh0.len() {
                    assert(fresh[i] == fresh0[i]);
                } else {
                    assert(list[n - 1] == t);
                }
            }
        }
    }
}

/// Once the triangles of `order` are drawn, vertex `v` is the one that entered the cache `age`
/// moments ago, and it will still be there after twice as many vertices have entered as it has
/// corners left.
pub open spec fn stays(
    indices: Seq<u32>,
    order: Seq<u32>,
    cache_size: int,
    v: u32,
    age: int,
) -> bool {
    let log = misses::misses(mesh::reordered(indices, order), cache_size);
    &&& 1 <= age <= log.len()
    &&& log[log.len() - age] == v
    &&& age + 2 * mesh::corners_left(indices, order, v as int) <= cache_size
}

/// One of the `candidates` that has corners left.
pub open spec fn is_candidate(
    indices: Seq<u32>,
    order: Seq<u32>,
    candidates: Seq<u32>,
    v: u32,
) -> bool {
    candidates.contains(v) && mesh::corners_left(indices, order, v as int) > 0
}

/// `v` is the candidate to go on at: the oldest one that stays in the cache, or else the first
/// one.
pub open spec fn is_preferred(
    indices: Seq<u32>,
    order: Seq<u32>,
    cache_size: int,
    candidates: Seq<u32>,
    v: u32,
) -> bool {
    &&& is_candidate(indices, order, candidates, v)
    &&& if exists|u: u32, age: int|
        is_candidate(indices, order, candidates, u) && #[trigger] stays(
            indices,
            order,
            cache_size,
            u,
            age,
        ) {
        exists|age: int|
            #![trigger stays(indices, order, cache_size, v, age)]
            stays(indices, order, cache_size, v, age) && forall|u: u32, b: int|
                is_candidate(indices, order, candidates, u) && #[trigger] stays(
                    indices,
                    order,
                    cache_size,
                    u,
                    b,
                ) ==> b <= age
    } else {
        exists|i: int|
            0 <= i < candidates.len() && #[trigger] candidates[i] == v && forall|j: int|
                0 <= j < i ==> mesh::corners_left(
                    indices,
                    order,
                    #[trigger] candidates[j] as int,
                ) == 0
    }
}

/// `v` is the vertex of the last corner drawn that has corners left.
pub open spec fn is_last_met(indices: Seq<u32>, order: Seq<u32>, v: u32) -> bool {
    let out = mesh::reordered(indices, order);
    exists|p: int|
        0 <= p < out.len() && #[trigger] out[p] == v && mesh::corners_left(
            indices,
            order,
            v as int,
        ) > 0 && forall|q: int|
            p < q < out.len() ==> mesh::corners_left(indices, order, #[trigger] out[q] as int) == 0
}

/// Entry `i` of the stack is corner `trace[i]` of those drawn, and the corners that are not on
/// the stack have nothing left or are at the vertex `next`.
spec fn is_trace(
    trace: Seq<int>,
    stack: Seq<u32>,
    out: Seq<u32>,
    live: Seq<int>,
    next: Option<u32>,
) -> bool {
    &&& trace.len() == stack.len()
    &&& forall|i: int|
        0 <= i < trace.len() ==> 0 <= #[trigger] trace[i] < out.len() && out[trace[i]] == stack[i]
    &&& forall|i: int, j: int| 0 <= i < j < trace.len() ==> #[trigger] trace[i] < #[trigger] trace[j]
    &&& forall|p: int|
        0 <= p < out.len() ==> trace.contains(p) || live[#[trigger] out[p] as int] <= 0 || next
            == Some(out[p])
}

/// What the stamps and the stack of a walk tell of the triangles emitted.
spec fn is_told(indices: Seq<u32>, cache_size: int, w: FifoWalk) -> bool {
    let out = mesh::reordered(indices, w.order);
    &&& is_stamped(w.stamps, w.time, out, cache_size)
    &&& exists|trace: Seq<int>| is_trace(trace, w.stack, out, w.live, w.next)
}

/// The walk within a step, with everything around its current vertex emitted.
spec fn fan(indices: Seq<u32>, cache_size: int, w: FifoWalk) -> FifoWalk {
    let list = adjacency::incident(indices, w.next->0 as int, indices.len() as int);
    w.fanned(indices, list, list.len() as int, cache_size)
}

/// The triangles around a vertex are listed in input order.
pub proof fn lemma_incident_order(indices: Seq<u32>, v: int, n: int)
    requires
        0 <= n <= indices.len(),
        indices.len() <= u32::MAX,
    ensures
        forall|i: int, j: int|
            0 <= i < j < adjacency::incident(indices, v, n).len()
                ==> #[trigger] adjacency::incident(indices, v, n)[i]
                <= #[trigger] adjacency::incident(indices, v, n)[j],
        forall|i: int|
            0 <= i < adjacency::incident(indices, v, n).len() ==> 3 * #[trigger] adjacency::incident(
                indices,
                v,
                n,
            )[i] < n,
    decreases n,
{
    if n > 0 {
        lemma_incident_order(indices, v, n - 1);
        let before = adjacency::incident(indices, v, n - 1);
        let list = adjacency::incident(indices, v, n);
        assert forall|i: int| 0 <= i < list.len() implies 3 * #[trigger] list[i] < n by {
            if i < before.len() {
                assert(list[i] == before[i]);
            }
        }
        assert forall|i: int, j: int| 0 <= i < j < list.len() implies #[trigger] list[i]
            <= #[trigger] list[j] by {
            assert(list[i] == before[i]);
            assert(3 * before[i] < n - 1);
            if j < before.len() {
                assert(list[j] == before[j]);
            }
        }
    }
}

proof fn lemma_fan(indices: Seq<u32>, vertex_count: nat, cache_size: int, w: FifoWalk, k: nat)
    requires
        mesh::is_mesh(indices, vertex_count as int),
        0 < indices.len() <= u32::MAX,
        0 < cache_size,
        fifo::walk_inv(indices, vertex_count, cache_size, w, k),
        is_told(indices, cache_size, w),
        w.next is Some,
    ensures
        ({
            let v = w.next->0;
            let list = adjacency::incident(indices, v as int, indices.len() as int);
            let f = fan(indices, cache_size, w);
            &&& fifo::fan_inv(indices, vertex_count, cache_size, f)
            &&& is_fanning(indices, cache_size, w, f, list, list.len() as int)
            &&& f.live[v as int] == 0
            &&& f.cursor == w.cursor
            &&& forall|i: int| 0 <= i < list.len() ==> f.order.contains(#[trigger] list[i])
            &&& exists|trace: Seq<int>|
                is_trace(trace, f.stack, mesh::reordered(indices, f.order), f.live, None)
        }),
{
    let v = w.next->0;
    let n = indices.len() as int;
    let list = adjacency::incident(indices, v as int, n);
    let f = fan(indices, cache_size, w);
    fifo::lemma_incident(indices, v as int);
    lemma_incident_order(indices, v as int, n);
    lemma_fanning(indices, vertex_count, cache_size, w, list, list.len() as int);
    fifo::lemma_fanned(indices, vertex_count, cache_size, w, list, list.len() as int);
    fifo::lemma_waiting_positive(list, f.order);
    assert(f.live[v as int] == fifo::waiting(list, f.order));
    let out0 = mesh::reordered(indices, w.order);
    let out = mesh::reordered(indices, f.order);
    let m = out0.len() as int;
    let t0 = choose|trace: Seq<int>| is_trace(trace, w.stack, out0, w.live, w.next);
    let trace = t0 + Seq::new((out.len() - m) as nat, |i: int| m + i);
    assert forall|p: int| 0 <= p < m implies #[trigger] out[p] == out0[p] by {
        assert(f.order.take(w.order.len() as int)[p / 3] == f.order[p / 3]);
    }
    assert forall|i: int| 0 <= i < trace.len() implies 0 <= #[trigger] trace[i] < out.len()
        && out[trace[i]] == f.stack[i] by {
        if i < t0.len() {
            assert(trace[i] == t0[i]);
            assert(out0[t0[i]] == w.stack[i]);
        } else {
            assert(f.stack[i] == out.skip(m)[i - t0.len()]);
        }
    }
    assert forall|i: int, j: int| 0 <= i < j < trace.len() implies #[trigger] trace[i]
        < #[trigger] trace[j] by {
        if j < t0.len() {
            assert(t0[i] < t0[j]);
        } else if i < t0.len() {
            assert(t0[i] < m);
        }
    }
    assert forall|p: int| 0 <= p < out.len() implies trace.contains(p) || live_none(
        f.live,
        #[trigger] out[p],
    ) by {
        if p < m {
            assert(out[p] == out0[p]);
            if t0.contains(p) {
                let i = choose|i: int| 0 <= i < t0.len() && t0[i] == p;
                assert(trace[i] == p);
            } else if w.next == Some(out0[p]) {
            } else {
                assert(w.live[out0[p] as int] <= 0);
                lemma_out_in_range(indices, vertex_count, w.order, p);
                assert(f.live[out0[p] as int] <= w.live[out0[p] as int]);
            }
        } else {
            assert(trace[t0.len() + p - m] == p);
        }
    }
    assert(is_trace(trace, f.stack, out, f.live, None));
}

spec fn live_none(live: Seq<int>, v: u32) -> bool {
    live[v as int] <= 0
}

proof fn lemma_out_in_range(indices: Seq<u32>, vertex_count: nat, order: Seq<u32>, p: int)
    requires
        mesh::is_mesh(indices, vertex_count as int),
        forall|i: int| 0 <= i < order.len() ==> #[trigger] order[i] < mesh::face_count(indices),
        0 <= p < mesh::reordered(indices, order).len(),
    ensures
        mesh::reordered(indices, order)[p] < vertex_count,
{
    assert(order[p / 3] < mesh::face_count(indices));
    assert(indices[3 * order[p / 3] + p % 3] < vertex_count);
}

/// Every step keeps what the stamps and the stack tell.
proof fn lemma_told_step(indices: Seq<u32>, vertex_count: nat, cache_size: int, w: FifoWalk, k: nat)
    requires
        mesh::is_mesh(indices, vertex_count as int),
        0 < indices.len() <= u32::MAX,
        0 < cache_size,
        fifo::walk_inv(indices, vertex_count, cache_size, w, k),
        is_told(indices, cache_size, w),
    ensures
        is_told(indices, cache_size, fifo::walk_step(indices, cache_size, w)),
{
    if w.next is Some {
        lemma_fan(indices, vertex_count, cache_size, w, k);
        let f = fan(indices, cache_size, w);
        let out = mesh::reordered(indices, f.order);
        let a = fifo::walk_step(indices, cache_size, w);
        let trace = choose|trace: Seq<int>| is_trace(trace, f.stack, out, f.live, None);
        let m = f.stack.len() as int;
        fifo::lemma_last_live(f.stack, m, f.live);
        let top = fifo::last_live(f.stack, m, f.live);
        assert(a.order == f.order && a.live == f.live);
        assert(a.stamps == f.stamps && a.time == f.time);
        if a.stack == f.stack {
            assert(is_trace(trace, a.stack, out, a.live, a.next));
        } else {
            let cut: int = if top >= 0 { top } else { 0 };
            let kept = trace.take(cut);
            assert(a.stack =~= f.stack.take(cut));
            assert forall|p: int| 0 <= p < out.len() implies kept.contains(p) || live_none(
                a.live,
                #[trigger] out[p],
            ) || a.next == Some(out[p]) by {
                if trace.contains(p) {
                    let i = choose|i: int| 0 <= i < trace.len() && trace[i] == p;
                    assert(out[trace[i]] == f.stack[i]);
                    if i < cut {
                        assert(kept[i] == p);
                    } else if i > top {
                        assert(f.live[f.stack[i] as int] <= 0);
                    }
                }
            }
            assert(is_trace(kept, a.stack, out, a.live, a.next));
        }
    }
}

proof fn lemma_told(indices: Seq<u32>, vertex_count: nat, cache_size: int, k: nat)
    requires
        mesh::is_mesh(indices, vertex_count as int),
        0 < indices.len() <= u32::MAX,
        0 < cache_size,
    ensures
        is_told(indices, cache_size, fifo::walk_after(indices, vertex_count, cache_size, k)),
    decreases k,
{
    let w = fifo::walk_after(indices, vertex_count, cache_size, k);
    if k == 0 {
        let out = mesh::reordered(indices, w.order);
        assert(out =~= Seq::<u32>::empty());
        assert(is_trace(Seq::empty(), w.stack, out, w.live, w.next));
    } else {
        let j = (k - 1) as nat;
        lemma_told(indices, vertex_count, cache_size, j);
        fifo::lemma_walk_after(indices, vertex_count, cache_size, j);
        lemma_told_step(
            indices,
            vertex_count,
            cache_size,
            fifo::walk_after(indices, vertex_count, cache_size, j),
            j,
        );
    }
}

/// What the state `f` within a step knows of a vertex with corners left: whether it stays in the
/// cache, and its age.
proof fn lemma_stays(
    indices: Seq<u32>,
    vertex_count: nat,
    cache_size: int,
    f: FifoWalk,
    v: u32,
    age: int,
)
    requires
        indices.len() <= u32::MAX,
        0 < cache_size,
        fifo::fan_inv(indices, vertex_count, cache_size, f),
        is_stamped(f.stamps, f.time, mesh::reordered(indices, f.order), cache_size),
        v < vertex_count,
        f.live[v as int] > 0,
    ensures
        f.live[v as int] == mesh::corners_left(indices, f.order, v as int),
        stays(indices, f.order, cache_size, v, age) <==> {
            &&& age == f.time - f.stamps[v as int]
            &&& 2 * f.live[v as int] + f.time - f.stamps[v as int] <= cache_size
        },
{
    let out = mesh::reordered(indices, f.order);
    let log = misses::misses(out, cache_size);
    lemma_corners_waiting(indices, f.order, v as int, indices.len() as int);
    let i = f.stamps[v as int] - cache_size - 1;
    if stays(indices, f.order, cache_size, v, age) {
        let j = log.len() - age;
        assert(log[j] == v);
        assert(f.stamps[log[j] as int] >= cache_size + 1 + j);
        assert(log[i] == v);
        if j < i {
            misses::lemma_misses_apart(out, cache_size, j, i);
        }
    } else if 2 * f.live[v as int] + f.time - f.stamps[v as int] <= cache_size {
        assert(log[i] == v);
        assert(0 <= f.stamps[v as int] < f.time);
    }
}

proof fn lemma_preferred(
    indices: Seq<u32>,
    vertex_count: nat,
    cache_size: int,
    f: FifoWalk,
    candidates: Seq<u32>,
)
    requires
        indices.len() <= u32::MAX,
        0 < cache_size,
        fifo::fan_inv(indices, vertex_count, cache_size, f),
        is_stamped(f.stamps, f.time, mesh::reordered(indices, f.order), cache_size),
        forall|i: int| 0 <= i < candidates.len() ==> #[trigger] candidates[i] < vertex_count,
    ensures
        ({
            let best = fifo::best_candidate(
                candidates,
                candidates.len() as int,
                f.live,
                f.stamps,
                f.time,
                cache_size,
            );
            &&& best < candidates.len()
            &&& best >= 0 ==> is_preferred(
                indices,
                f.order,
                cache_size,
                candidates,
                candidates[best],
            )
            &&& best < 0 ==> forall|v: u32| !#[trigger] is_candidate(
                indices,
                f.order,
                candidates,
                v,
            )
        }),
{
    let m = candidates.len() as int;
    let order = f.order;
    let n = indices.len() as int;
    assert forall|i: int| 0 <= i < m implies f.stamps[#[trigger] candidates[i] as int] <= f.time by {
        assert(0 <= f.stamps[candidates[i] as int] < f.time);
    }
    fifo::lemma_best_candidate(candidates, m, f.live, f.stamps, f.time, cache_size);
    let best = fifo::best_candidate(candidates, m, f.live, f.stamps, f.time, cache_size);
    assert forall|i: int| 0 <= i < m implies f.live[#[trigger] candidates[i] as int]
        == mesh::corners_left(indices, order, candidates[i] as int) by {
        lemma_corners_waiting(indices, order, candidates[i] as int, n);
        assert(f.live[candidates[i] as int] == fifo::waiting(
            adjacency::incident(indices, candidates[i] as int, n),
            order,
        ));
    }
    assert forall|u: u32| is_candidate(indices, order, candidates, u) implies exists|i: int|
        0 <= i < m && #[trigger] candidates[i] == u && f.live[u as int] > 0 by {
        let i = choose|i: int| 0 <= i < m && candidates[i] == u;
        assert(candidates[i] == u);
    }
    if best >= 0 {
        let c = candidates[best];
        assert(candidates.contains(c));
        let p = fifo::priority(c as int, f.live, f.stamps, f.time, cache_size);
        assert forall|u: u32, b: int|
            is_candidate(indices, order, candidates, u) && #[trigger] stays(
                indices,
                order,
                cache_size,
                u,
                b,
            ) implies b <= p by {
            let i = choose|i: int| 0 <= i < m && #[trigger] candidates[i] == u;
            lemma_stays(indices, vertex_count, cache_size, f, u, b);
        }
        lemma_stays(indices, vertex_count, cache_size, f, c, p);
        if exists|u: u32, age: int|
            is_candidate(indices, order, candidates, u) && #[trigger] stays(
                indices,
                order,
                cache_size,
                u,
                age,
            ) {
            assert(p >= 1);
            assert(stays(indices, order, cache_size, c, p));
        } else {
            assert(is_candidate(indices, order, candidates, c));
            lemma_stays(
                indices,
                vertex_count,
                cache_size,
                f,
                c,
                f.time - f.stamps[c as int],
            );
            assert(p == 0);
            assert forall|j: int| 0 <= j < best implies mesh::corners_left(
                indices,
                order,
                #[trigger] candidates[j] as int,
            ) == 0 by {
                assert(f.live[candidates[j] as int] == mesh::corners_left(
                    indices,
                    order,
                    candidates[j] as int,
                ));
                assert(fifo::priority(
                    candidates[j] as int,
                    f.live,
                    f.stamps,
                    f.time,
                    cache_size,
                ) < p);
                assert(f.stamps[candidates[j] as int] <= f.time);
            }
        }
    }
}

/// A step of the walk emits the triangles around the current vertex that are left, and no
/// others, in input order.
pub proof fn lemma_step_emits(indices: Seq<u32>, vertex_count: nat, cache_size: int, k: nat)
    requires
        mesh::is_mesh(indices, vertex_count as int),
        0 < indices.len() <= u32::MAX,
        0 < cache_size,
        fifo::walk_after(indices, vertex_count, cache_size, k).next is Some,
    ensures
        ({
            let w = fifo::walk_after(indices, vertex_count, cache_size, k);
            let a = fifo::walk_after(indices, vertex_count, cache_size, k + 1);
            let v = w.next->0;
            let m = w.order.len() as int;
            &&& m <= a.order.len()
            &&& a.order.take(m) == w.order
            &&& forall|i: int, j: int|
                m <= i < j < a.order.len() ==> #[trigger] a.order[i] < #[trigger] a.order[j]
            &&& forall|i: int|
                m <= i < a.order.len() ==> !w.order.contains(#[trigger] a.order[i])
                    && mesh::triangle(indices, a.order[i] as int).contains(v)
            &&& forall|t: u32|
                t < mesh::face_count(indices) && #[trigger] mesh::triangle(
                    indices,
                    t as int,
                ).contains(v) ==> a.order.contains(t)
        }),
{
    let w = fifo::walk_after(indices, vertex_count, cache_size, k);
    let a = fifo::walk_after(indices, vertex_count, cache_size, k + 1);
    let v = w.next->0;
    let n = indices.len() as int;
    let m = w.order.len() as int;
    let list = adjacency::incident(indices, v as int, n);
    fifo::lemma_walk_after(indices, vertex_count, cache_size, k);
    lemma_told(indices, vertex_count, cache_size, k);
    lemma_fan(indices, vertex_count, cache_size, w, k);
    assert(a == fifo::walk_step(indices, cache_size, w));
    let f = fan(indices, cache_size, w);
    assert(a.order == f.order);
    let fresh = f.order.skip(m);
    assert forall|i: int, j: int| m <= i < j < a.order.len() implies #[trigger] a.order[i]
        < #[trigger] a.order[j] by {
        assert(fresh[i - m] < fresh[j - m]);
    }
    assert forall|i: int| m <= i < a.order.len() implies !w.order.contains(#[trigger] a.order[i])
        && mesh::triangle(indices, a.order[i] as int).contains(v) by {
        let t = fresh[i - m];
        assert(list.contains(t));
        list.to_multiset_ensures();
        adjacency::lemma_incident_count(indices, v as int, t, n);
        assert(f.order[i] < mesh::face_count(indices));
        let corners = mesh::triangle(indices, t as int);
        assert(corners[0] == indices[3 * t as int]);
        assert(corners[1] == indices[3 * t + 1]);
        assert(corners[2] == indices[3 * t + 2]);
    }
    assert forall|t: u32|
        t < mesh::face_count(indices) && #[trigger] mesh::triangle(indices, t as int).contains(
            v,
        ) implies a.order.contains(t) by {
        let corners = mesh::triangle(indices, t as int);
        let c = choose|c: int| 0 <= c < corners.len() && corners[c] == v;
        assert(indices[3 * t + c] == v);
        adjacency::lemma_incident_count(indices, v as int, t, n);
        list.to_multiset_ensures();
        assert(list.contains(t));
        let i = choose|i: int| 0 <= i < list.len() && list[i] == t;
        assert(f.order.contains(list[i]));
    }
}

/// The entry that the state `f` takes from its stack is the last corner drawn that has corners
/// left.
proof fn lemma_top_is_last_met(
    indices: Seq<u32>,
    vertex_count: nat,
    cache_size: int,
    f: FifoWalk,
)
    requires
        mesh::is_mesh(indices, vertex_count as int),
        indices.len() <= u32::MAX,
        fifo::fan_inv(indices, vertex_count, cache_size, f),
        exists|trace: Seq<int>|
            is_trace(trace, f.stack, mesh::reordered(indices, f.order), f.live, None),
    ensures
        ({
            let top = fifo::last_live(f.stack, f.stack.len() as int, f.live);
            let out = mesh::reordered(indices, f.order);
            &&& top < f.stack.len()
            &&& top >= 0 ==> is_last_met(indices, f.order, f.stack[top])
            &&& top < 0 ==> forall|p: int|
                0 <= p < out.len() ==> mesh::corners_left(
                    indices,
                    f.order,
                    #[trigger] out[p] as int,
                ) == 0
        }),
{
    let out = mesh::reordered(indices, f.order);
    let trace = choose|trace: Seq<int>| is_trace(trace, f.stack, out, f.live, None);
    let s = f.stack.len() as int;
    fifo::lemma_last_live(f.stack, s, f.live);
    let top = fifo::last_live(f.stack, s, f.live);
    assert forall|q: int| 0 <= q < out.len() implies f.live[#[trigger] out[q] as int]
        == mesh::corners_left(indices, f.order, out[q] as int) by {
        lemma_out_in_range(indices, vertex_count, f.order, q);
        lemma_left(indices, vertex_count, cache_size, f, out[q] as int);
    }
    assert forall|q: int|
        0 <= q < out.len() && (top >= 0 ==> trace[top] < q) implies mesh::corners_left(
        indices,
        f.order,
        #[trigger] out[q] as int,
    ) == 0 by {
        assert(f.live[out[q] as int] == mesh::corners_left(indices, f.order, out[q] as int));
        if trace.contains(q) {
            let i = choose|i: int| 0 <= i < trace.len() && trace[i] == q;
            assert(out[trace[i]] == f.stack[i]);
            if i < top {
                assert(trace[i] < trace[top]);
            }
            assert(f.live[f.stack[i] as int] <= 0);
        }
    }
    if top >= 0 {
        let p = trace[top];
        assert(out[p] == f.stack[top]);
        assert(is_last_met(indices, f.order, f.stack[top]));
    }
}

proof fn lemma_left(
    indices: Seq<u32>,
    vertex_count: nat,
    cache_size: int,
    f: FifoWalk,
    v: int,
)
    requires
        fifo::fan_inv(indices, vertex_count, cache_size, f),
        0 <= v < vertex_count,
    ensures
        f.live[v] == mesh::corners_left(indices, f.order, v),
{
    lemma_corners_waiting(indices, f.order, v, indices.len() as int);
    assert(f.live[v] == fifo::waiting(
        adjacency::incident(indices, v, indices.len() as int),
        f.order,
    ));
}

/// A walk that goes on in input order does so at the first vertex with corners left.
proof fn lemma_first_left(
    indices: Seq<u32>,
    vertex_count: nat,
    cache_size: int,
    a: FifoWalk,
    k: nat,
    c: int,
)
    requires
        fifo::walk_inv(indices, vertex_count, cache_size, a, k),
        a.cursor < vertex_count ==> a.live[a.cursor] > 0 && a.next == Some(a.cursor as u32),
        a.cursor >= vertex_count ==> a.next is None,
        0 <= c < a.cursor,
    ensures
        mesh::corners_left(indices, a.order, c) == 0,
{
    lemma_left(indices, vertex_count, cache_size, a, c);
    assert(a.live[c] == 0 || a.next == Some(c as u32));
    if a.cursor < vertex_count {
        fifo::lemma_live_is_used(indices, vertex_count, cache_size, a, a.cursor);
    }
}

/// Where a step of the walk goes, told by the triangles emitted alone.
///
/// Of the corners of the triangles just emitted, the walk goes on at the oldest one that stays
/// in the cache, or else at the first one with corners left. If there is none, or if its number
/// is `u32::MAX`, it goes on at the last corner drawn that has corners left, or else at the
/// first vertex that has. The walk ends when nothing is left.
pub proof fn lemma_step_goes_on(indices: Seq<u32>, vertex_count: nat, cache_size: int, k: nat)
    requires
        mesh::is_mesh(indices, vertex_count as int),
        0 < indices.len() <= u32::MAX,
        0 < cache_size,
        fifo::walk_after(indices, vertex_count, cache_size, k).next is Some,
    ensures
        ({
            let w = fifo::walk_after(indices, vertex_count, cache_size, k);
            let a = fifo::walk_after(indices, vertex_count, cache_size, k + 1);
            let out = mesh::reordered(indices, a.order);
            let candidates = out.skip(3 * w.order.len() as int);
            match a.next {
                Some(u) => {
                    &&& mesh::corners_left(indices, a.order, u as int) > 0
                    &&& {
                        ||| {
                            &&& u != u32::MAX
                            &&& is_preferred(indices, a.order, cache_size, candidates, u)
                        }
                        ||| {
                            &&& {
                                ||| is_preferred(
                                    indices,
                                    a.order,
                                    cache_size,
                                    candidates,
                                    u32::MAX,
                                )
                                ||| forall|c: u32| !#[trigger] is_candidate(
                                    indices,
                                    a.order,
                                    candidates,
                                    c,
                                )
                            }
                            &&& is_last_met(indices, a.order, u)
                        }
                        ||| {
                            &&& forall|p: int|
                                0 <= p < out.len() ==> mesh::corners_left(
                                    indices,
                                    a.order,
                                    #[trigger] out[p] as int,
                                ) == 0
                            &&& forall|c: int|
                                0 <= c < u ==> #[trigger] mesh::corners_left(indices, a.order, c)
                                    == 0
                        }
                    }
                },
                None => forall|c: int|
                    0 <= c < vertex_count ==> #[trigger] mesh::corners_left(indices, a.order, c)
                        == 0,
            }
        }),
{
    let w = fifo::walk_after(indices, vertex_count, cache_size, k);
    let a = fifo::walk_after(indices, vertex_count, cache_size, k + 1);
    let m = w.order.len() as int;
    fifo::lemma_walk_after(indices, vertex_count, cache_size, k);
    fifo::lemma_walk_after(indices, vertex_count, cache_size, k + 1);
    lemma_told(indices, vertex_count, cache_size, k);
    lemma_fan(indices, vertex_count, cache_size, w, k);
    assert(a == fifo::walk_step(indices, cache_size, w));
    let f = fan(indices, cache_size, w);
    assert(a.order == f.order && a.live == f.live);
    let out = mesh::reordered(indices, a.order);
    let candidates = out.skip(3 * m);
    // the corners just pushed are the candidates
    assert(f.stack.skip(w.stack.len() as int) =~= candidates);
    assert forall|i: int| 0 <= i < candidates.len() implies #[trigger] candidates[i]
        < vertex_count by {
        assert(candidates[i] == out[3 * m + i]);
        lemma_out_in_range(indices, vertex_count, a.order, 3 * m + i);
    }
    lemma_preferred(indices, vertex_count, cache_size, f, candidates);
    lemma_top_is_last_met(indices, vertex_count, cache_size, f);
    fifo::lemma_first_live(f.live, f.cursor, vertex_count as int);
    let best = fifo::best_candidate(
        candidates,
        candidates.len() as int,
        f.live,
        f.stamps,
        f.time,
        cache_size,
    );
    let top = fifo::last_live(f.stack, f.stack.len() as int, f.live);
    if best >= 0 && candidates[best] != u32::MAX {
        assert(a.next == Some(candidates[best]));
    } else if top >= 0 {
        assert(a.next == Some(f.stack[top]));
    } else {
        assert forall|c: int| 0 <= c < a.cursor implies #[trigger] mesh::corners_left(
            indices,
            a.order,
            c,
        ) == 0 by {
            lemma_first_left(indices, vertex_count, cache_size, a, k + 1, c);
        }
        if a.next is Some {
            fifo::lemma_live_is_used(indices, vertex_count, cache_size, a, a.cursor);
            lemma_left(indices, vertex_count, cache_size, a, a.cursor);
        }
    }
}

/// The order is that of the walk: what is emitted in the first `k` steps stands first.
pub proof fn lemma_order_of_steps(
    indices: Seq<u32>,
    vertex_count: nat,
    cache_size: int,
    k: nat,
)
    requires
        mesh::is_mesh(indices, vertex_count as int),
        0 < indices.len() <= u32::MAX,
        0 < cache_size,
    ensures
        ({
            let w = fifo::walk_after(indices, vertex_count, cache_size, k);
            let order = fifo::fifo_order(indices, vertex_count, cache_size);
            &&& w.order.len() <= order.len()
            &&& order.take(w.order.len() as int) == w.order
            &&& w.next is None ==> order == w.order
            &&& w.next is Some ==> k <= mesh::face_count(indices)
        }),
    decreases mesh::face_count(indices) + 2 - k,
{
    let w = fifo::walk_after(indices, vertex_count, cache_size, k);
    let order = fifo::fifo_order(indices, vertex_count, cache_size);
    let n = mesh::face_count(indices);
    fifo::lemma_walk_after(indices, vertex_count, cache_size, k);
    if w.next is None {
        fifo::lemma_walk_after(indices, vertex_count, cache_size, n + 1);
        if k <= n + 1 {
            fifo::lemma_walk_ended(indices, vertex_count, cache_size, k, n + 1);
        } else {
            fifo::lemma_walk_ended(indices, vertex_count, cache_size, n + 1, k);
        }
        assert(order.take(order.len() as int) =~= order);
    } else {
        lemma_step_emits(indices, vertex_count, cache_size, k);
        lemma_order_of_steps(indices, vertex_count, cache_size, k + 1);
        let a = fifo::walk_after(indices, vertex_count, cache_size, k + 1);
        assert(order.take(w.order.len() as int) =~= a.order.take(w.order.len() as int));
    }
}

/// The walk begins at vertex 0.
pub proof fn lemma_first_step(indices: Seq<u32>, vertex_count: nat, cache_size: int)
    ensures
        fifo::walk_after(indices, vertex_count, cache_size, 0).next == Some(0u32),
        fifo::walk_after(indices, vertex_count, cache_size, 0).order.len() == 0,
{
}

} // verus!
