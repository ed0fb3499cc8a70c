//! Simulation of a vertex transform cache.

use crate::mesh;
use crate::vertex::adjacency;
use vstd::prelude::*;
use vstd::set_lib::*;

verus! {

/// Counts of the simulation of a vertex transform cache.
///
/// Two ratios rate the order of an index buffer. The number of transformed vertices per
/// triangle, `vertices_transformed / (index_count / 3)`, is 0.5 at best and 3 at worst. The
/// number of transformed vertices per vertex in use, `vertices_transformed /
/// unique_vertex_count`, is 1 at best: each vertex is transformed once.
#[derive(Clone, Copy, Debug, PartialEq, Eq)]
pub struct VertexCacheStatistics {
    pub vertices_transformed: u32,
    pub warps_executed: u32,
    /// Number of indices in the buffer.
    pub index_count: usize,
    /// Number of different vertices in the buffer.
    pub unique_vertex_count: usize,
}

/// The sizes of the simulated hardware. A warp size or primitive group size of 0 stands for
/// no limit.
pub struct Hardware {
    pub cache_size: int,
    pub warp_size: int,
    pub primgroup_size: int,
}

/// A simulation in progress.
pub struct Simulation {
    /// The vertices in the cache, the oldest one first.
    pub cache: Seq<u32>,
    /// Number of vertices transformed.
    pub transformed: int,
    /// Number of warps that were flushed.
    pub flushed: int,
    /// Number of vertices in the current warp.
    pub warp: int,
    /// Number of triangles in the current primitive group.
    pub primgroup: int,
}

impl Simulation {
    /// The simulation before the first triangle: the cache is empty.
    pub open spec fn start() -> Simulation {
        Simulation { cache: Seq::empty(), transformed: 0, flushed: 0, warp: 0, primgroup: 0 }
    }

    /// How many of the three corners are not in the cache.
    pub open spec fn missing(self, corners: Seq<u32>) -> int {
        (if self.cache.contains(corners[0]) {
            0int
        } else {
            1int
        }) + (if self.cache.contains(corners[1]) {
            0int
        } else {
            1int
        }) + (if self.cache.contains(corners[2]) {
            0int
        } else {
            1int
        })
    }

    /// A triangle with these corners does not fit into the warp or the primitive group.
    pub open spec fn is_full_for(self, hw: Hardware, corners: Seq<u32>) -> bool {
        ||| hw.primgroup_size > 0 && self.primgroup == hw.primgroup_size
        ||| hw.warp_size > 0 && self.warp + self.missing(corners) > hw.warp_size
    }

    /// Ends the warp, if it holds a vertex, and the primitive group, and empties the cache.
    pub open spec fn flush(self) -> Simulation {
        Simulation {
            cache: Seq::empty(),
            transformed: self.transformed,
            flushed: self.flushed + (if self.warp > 0 {
                1int
            } else {
                0int
            }),
            warp: 0,
            primgroup: 0,
        }
    }

    /// Fetches vertex `v`: one that is not in the cache is transformed and enters the cache,
    /// which the oldest vertex leaves if it is full.
    pub open spec fn fetch(self, hw: Hardware, v: u32) -> Simulation {
        if self.cache.contains(v) {
            self
        } else {
            Simulation {
                cache: if self.cache.len() < hw.cache_size {
                    self.cache.push(v)
                } else {
                    self.cache.push(v).drop_first()
                },
                transformed: self.transformed + 1,
                warp: self.warp + 1,
                ..self
            }
        }
    }

    /// Draws a triangle.
    pub open spec fn draw(self, hw: Hardware, corners: Seq<u32>) -> Simulation {
        let s = if self.is_full_for(hw, corners) {
            self.flush()
        } else {
            self
        };
        let drawn = s.fetch(hw, corners[0]).fetch(hw, corners[1]).fetch(hw, corners[2]);
        Simulation { primgroup: drawn.primgroup + 1, ..drawn }
    }
}

/// The simulation after the first `k` triangles of the buffer.
pub open spec fn simulated(indices: Seq<u32>, hw: Hardware, k: nat) -> Simulation
    decreases k,
{
    if k == 0 {
        Simulation::start()
    } else {
        simulated(indices, hw, (k - 1) as nat).draw(hw, mesh::triangle(indices, k - 1))
    }
}

/// Number of vertices transformed in the course of drawing the whole buffer.
pub open spec fn vertices_transformed(indices: Seq<u32>, hw: Hardware) -> int {
    simulated(indices, hw, mesh::face_count(indices)).transformed
}

/// Number of warps executed in the course of drawing the whole buffer. The last warp counts
/// if it holds a vertex.
pub open spec fn warps_executed(indices: Seq<u32>, hw: Hardware) -> int {
    let end = simulated(indices, hw, mesh::face_count(indices));
    end.flush().flushed
}

/// Number of different vertices in the buffer.
pub open spec fn unique_vertex_count(indices: Seq<u32>) -> nat {
    indices.to_set().len()
}

/// The time stamps tell which vertices are in the cache: with `time` to come, the cache holds
/// the vertices of the last `cache.len()` moments, and no other vertex is younger than the
/// size of the cache.
spec fn stamps_inv(cache: Seq<u32>, stamps: Seq<u128>, time: int, cache_size: int) -> bool {
    &&& cache.len() <= cache_size
    &&& cache_size < time
    &&& forall|k: int| 0 <= k < cache.len() ==> #[trigger] cache[k] < stamps.len()
    &&& forall|k: int|
        0 <= k < cache.len() ==> stamps[#[trigger] cache[k] as int] == time - cache.len() + k
    &&& forall|v: int| 0 <= v < stamps.len() ==> #[trigger] stamps[v] < time
    &&& forall|v: u32|
        v < stamps.len() && time - stamps[v as int] <= cache_size ==> #[trigger] cache.contains(v)
}

proof fn lemma_stamps_hit(cache: Seq<u32>, stamps: Seq<u128>, time: int, cache_size: int, v: u32)
    requires
        stamps_inv(cache, stamps, time, cache_size),
        v < stamps.len(),
    ensures
        cache.contains(v) <==> time - stamps[v as int] <= cache_size,
{
    if cache.contains(v) {
        let k = choose|k: int| 0 <= k < cache.len() && cache[k] == v;
        assert(stamps[cache[k] as int] == time - cache.len() + k);
    }
}

proof fn lemma_stamps_enter(cache: Seq<u32>, stamps: Seq<u128>, time: int, hw: Hardware, v: u32)
    requires
        stamps_inv(cache, stamps, time, hw.cache_size),
        0 < hw.cache_size,
        v < stamps.len(),
        !cache.contains(v),
        0 <= time <= u128::MAX,
    ensures
        stamps_inv(
            if cache.len() < hw.cache_size {
                cache.push(v)
            } else {
                cache.push(v).drop_first()
            },
            stamps.update(v as int, time as u128),
            time + 1,
            hw.cache_size,
        ),
{
    let kept = cache.len() < hw.cache_size;
    let shift: int = if kept { 0 } else { 1 };
    let after = if kept {
        cache.push(v)
    } else {
        cache.push(v).drop_first()
    };
    let stamped = stamps.update(v as int, time as u128);
    assert forall|k: int| 0 <= k < after.len() implies #[trigger] after[k] < stamped.len()
        && stamped[after[k] as int] == time + 1 - after.len() + k by {
        if k + shift < cache.len() {
            assert(after[k] == cache[k + shift]);
            assert(cache.contains(cache[k + shift]));
        } else {
            assert(after[k] == v);
        }
    }
    assert forall|u: u32|
        u < stamped.len() && time + 1 - stamped[u as int]
            <= hw.cache_size implies #[trigger] after.contains(u) by {
        if u == v {
            assert(after[after.len() - 1] == v);
        } else {
            assert(cache.contains(u));
            let k = choose|k: int| 0 <= k < cache.len() && cache[k] == u;
            assert(stamps[cache[k] as int] == time - cache.len() + k);
            assert(after[k - shift] == u);
        }
    }
}

impl Default for VertexCacheStatistics {
    fn default() -> (statistics: VertexCacheStatistics)
        ensures
            statistics == (VertexCacheStatistics {
                vertices_transformed: 0,
                warps_executed: 0,
                index_count: 0,
                unique_vertex_count: 0,
            }),
    {
        VertexCacheStatistics {
            vertices_transformed: 0,
            warps_executed: 0,
            index_count: 0,
            unique_vertex_count: 0,
        }
    }
}

/// A cache, told by the time at which each vertex last entered it (0: never).
struct StampedCache {
    stamps: Vec<u128>,
    time: u128,
}

impl StampedCache {
    spec fn is_of(self, cache: Seq<u32>, cache_size: usize) -> bool {
        stamps_inv(cache, self.stamps@, self.time as int, cache_size as int)
    }

    fn is_missing(&self, v: u32, cache_size: usize, Ghost(cache): Ghost<Seq<u32>>) -> (missing: bool)
        requires
            self.is_of(cache, cache_size),
            v < self.stamps@.len(),
        ensures
            missing == !cache.contains(v),
    {
        proof {
            lemma_stamps_hit(cache, self.stamps@, self.time as int, cache_size as int, v);
        }
        self.time - self.stamps[v as usize] > cache_size as u128
    }
}

/// Vertex `v` stands at one of the first `n` corners.
spec fn is_used(indices: Seq<u32>, n: int, v: int) -> bool {
    exists|i: int| 0 <= i < n && #[trigger] indices[i] == v
}

/// The different vertices below `bound` in the buffer.
spec fn used_below(indices: Seq<u32>, bound: int) -> Set<u32> {
    indices.to_set().filter(|v: u32| v < bound)
}

/// Returns cache hit statistics using a simplified FIFO model.
///
/// Results may not match actual GPU performance. A `warp_size` or `primgroup_size` of 0 stands
/// for no limit. The vertices transformed must be countable in 32 bits, as they are in every
/// buffer of at most `u32::MAX` indices.
pub fn analyze_vertex_cache(
    indices: &[u32],
    vertex_count: usize,
    cache_size: usize,
    warp_size: usize,
    primgroup_size: usize,
) -> (result: VertexCacheStatistics)
    requires
        mesh::is_mesh(indices@, vertex_count as int),
        cache_size >= 3,
        warp_size == 0 || warp_size >= 3,
        ({
            let hw = Hardware {
                cache_size: cache_size as int,
                warp_size: warp_size as int,
                primgroup_size: primgroup_size as int,
            };
            indices@.len() <= u32::MAX || vertices_transformed(indices@, hw) <= u32::MAX
        }),
    ensures
        ({
            let hw = Hardware {
                cache_size: cache_size as int,
                warp_size: warp_size as int,
                primgroup_size: primgroup_size as int,
            };
            &&& result.vertices_transformed == vertices_transformed(indices@, hw)
            &&& result.warps_executed == warps_executed(indices@, hw)
            &&& result.index_count == indices@.len()
            &&& result.unique_vertex_count == unique_vertex_count(indices@)
        }),
{
    proof {
        lemma_transformed_bounds(
            indices@,
            Hardware {
                cache_size: cache_size as int,
                warp_size: warp_size as int,
                primgroup_size: primgroup_size as int,
            },
        );
    }
    checked_analyze_vertex_cache(
        indices,
        vertex_count,
        cache_size,
        warp_size,
        primgroup_size,
    ).unwrap()
}

/// As [analyze_vertex_cache], for buffers of any length: returns `None` where the vertices
/// transformed cannot be counted in 32 bits.
pub fn checked_analyze_vertex_cache(
    indices: &[u32],
    vertex_count: usize,
    cache_size: usize,
    warp_size: usize,
    primgroup_size: usize,
) -> (result: Option<VertexCacheStatistics>)
    requires
        mesh::is_mesh(indices@, vertex_count as int),
        cache_size >= 3,
        warp_size == 0 || warp_size >= 3,
    ensures
        ({
            let hw = Hardware {
                cache_size: cache_size as int,
                warp_size: warp_size as int,
                primgroup_size: primgroup_size as int,
            };
            match result {
                Some(statistics) => {
                    &&& statistics.vertices_transformed == vertices_transformed(indices@, hw)
                    &&& statistics.warps_executed == warps_executed(indices@, hw)
                    &&& statistics.index_count == indices@.len()
                    &&& statistics.unique_vertex_count == unique_vertex_count(indices@)
                },
                None => vertices_transformed(indices@, hw) > u32::MAX,
            }
        }),
{
    let ghost hw = Hardware {
        cache_size: cache_size as int,
        warp_size: warp_size as int,
        primgroup_size: primgroup_size as int,
    };
    let n: usize = indices.len();
    let mut transformed: usize = 0;
    let mut executed: usize = 0;
    let mut warp_offset: usize = 0;
    let mut primgroup_offset: usize = 0;
    // 128 bits hold the time: it advances by the size of the cache with every flush
    let mut cache: StampedCache = StampedCache {
        stamps: vec![0; vertex_count],
        time: cache_size as u128 + 1,
    };
    let ghost mut s = Simulation::start();
    let ghost mut k: int = 0;
    let mut i: usize = 0;
    assert((0 + 1) * (cache_size + 4) == cache_size + 4) by (nonlinear_arith);
    while i < n
        invariant
            i <= n,
            n == indices@.len(),
            i == 3 * k,
            mesh::is_mesh(indices@, vertex_count as int),
            cache_size >= 3,
            hw == (Hardware {
                cache_size: cache_size as int,
                warp_size: warp_size as int,
                primgroup_size: primgroup_size as int,
            }),
            s == simulated(indices@, hw, k as nat),
            cache.is_of(s.cache, cache_size),
            cache.stamps@.len() == vertex_count,
            cache.time <= (k + 1) * (cache_size + 4),
            forall|v: int|
                0 <= v < vertex_count ==> (#[trigger] cache.stamps@[v] > 0 <==> is_used(
                    indices@,
                    i as int,
                    v,
                )),
            transformed == s.transformed,
            transformed <= i,
            executed == s.flushed,
            executed + warp_offset <= transformed,
            warp_offset == s.warp,
            primgroup_offset == s.primgroup,
            0 <= primgroup_offset <= k,
        decreases n - i,
    {
        proof {
            assert((k + 2) * (cache_size + 4) == (k + 1) * (cache_size + 4) + cache_size + 4)
                by (nonlinear_arith);
            assert(i + 2 < indices.len());
            assert((k + 1) * (cache_size + 4) <= 0x5555_5555_5555_5555 * 0x1_0000_0000_0000_0004)
                by (nonlinear_arith)
                requires
                    0 <= k < 0x5555_5555_5555_5555,
                    0 <= cache_size < 0x1_0000_0000_0000_0000,
            ;
        }
        let ghost corners = mesh::triangle(indices@, k);
        let a: u32 = indices[i];
        let b: u32 = indices[i + 1];
        let c: u32 = indices[i + 2];
        let ac: usize = if cache.is_missing(a, cache_size, Ghost(s.cache)) {
            1
        } else {
            0
        };
        let bc: usize = if cache.is_missing(b, cache_size, Ghost(s.cache)) {
            1
        } else {
            0
        };
        let cc: usize = if cache.is_missing(c, cache_size, Ghost(s.cache)) {
            1
        } else {
            0
        };

        // flush cache if triangle doesn't fit into warp or into the primitive buffer
        let ghost mut drawn = s;
        if (primgroup_size > 0 && primgroup_offset == primgroup_size) || (warp_size > 0
            && warp_offset + ac + bc + cc > warp_size) {
            if warp_offset > 0 {
                executed += 1;
            }
            warp_offset = 0;
            primgroup_offset = 0;

            // reset cache
            cache.time = cache.time + (cache_size as u128 + 1);
            proof {
                drawn = s.flush();
            }
        }

        // update cache and add vertices to warp
        let mut j: usize = 0;
        let ghost before = drawn;
        while j < 3
            invariant
                j <= 3,
                i + 2 < n,
                n == indices@.len(),
                mesh::is_mesh(indices@, vertex_count as int),
                cache_size >= 3,
                hw.cache_size == cache_size,
                corners == mesh::triangle(indices@, k),
                i == 3 * k,
                drawn == (if j == 0 {
                    before
                } else if j == 1 {
                    before.fetch(hw, corners[0])
                } else if j == 2 {
                    before.fetch(hw, corners[0]).fetch(hw, corners[1])
                } else {
                    before.fetch(hw, corners[0]).fetch(hw, corners[1]).fetch(hw, corners[2])
                }),
                cache.is_of(drawn.cache, cache_size),
                cache.stamps@.len() == vertex_count,
                cache.time <= (k + 1) * (cache_size + 4) + cache_size + 1 + j,
                (k + 1) * (cache_size + 4) <= 0x5555_5555_5555_5555 * 0x1_0000_0000_0000_0004,
                forall|v: int|
                    0 <= v < vertex_count ==> (#[trigger] cache.stamps@[v] > 0 <==> is_used(
                        indices@,
                        i + j,
                        v,
                    )),
                transformed == drawn.transformed,
                transformed <= i + j,
                executed == drawn.flushed,
                executed + warp_offset <= transformed,
                warp_offset == drawn.warp,
                primgroup_offset == drawn.primgroup,
                primgroup_offset <= k,
            decreases 3 - j,
        {
            let index: u32 = indices[i + j];
            let ghost stamps0 = cache.stamps@;
            assert(index == corners[j as int]);
            assert(index < vertex_count);
            if cache.is_missing(index, cache_size, Ghost(drawn.cache)) {
                proof {
                    lemma_stamps_enter(drawn.cache, cache.stamps@, cache.time as int, hw, index);
                }
                cache.stamps[index as usize] = cache.time;
                cache.time = cache.time + 1;
                transformed += 1;
                warp_offset += 1;
            }
            proof {
                drawn = drawn.fetch(hw, index);
                assert forall|v: int| 0 <= v < vertex_count implies (#[trigger] cache.stamps@[v] > 0
                    <==> is_used(indices@, i + j + 1, v)) by {
                    assert(stamps0[v] > 0 <==> is_used(indices@, i + j, v));
                    if is_used(indices@, i + j, v) {
                        let q = choose|q: int| 0 <= q < i + j && #[trigger] indices@[q] == v;
                        assert(indices@[q] == v);
                    }
                    if v == index {
                        assert(indices@[i + j] == v);
                        lemma_stamps_hit_positive(
                            drawn.cache,
                            cache.stamps@,
                            cache.time as int,
                            hw,
                            index,
                        );
                    } else if is_used(indices@, i + j + 1, v) {
                        let q = choose|q: int| 0 <= q < i + j + 1 && #[trigger] indices@[q] == v;
                        assert(q != i + j);
                        assert(indices@[q] == v);
                    }
                }
            }
            j += 1;
        }
        primgroup_offset += 1;
        i += 3;
        proof {
            s = s.draw(hw, corners);
            k = k + 1;
        }
    }

    // count the vertices that were transformed at all
    let mut unique: usize = 0;
    let mut v: usize = 0;
    proof {
        assert(used_below(indices@, 0) =~= Set::<u32>::empty());
    }
    while v < vertex_count
        invariant
            v <= vertex_count,
            n == indices@.len(),
            cache.stamps@.len() == vertex_count,
            forall|u: int|
                0 <= u < vertex_count ==> (#[trigger] cache.stamps@[u] > 0 <==> is_used(
                    indices@,
                    n as int,
                    u,
                )),
            unique <= v,
            unique == used_below(indices@, v as int).len(),
            used_below(indices@, v as int).finite(),
        decreases vertex_count - v,
    {
        proof {
            lemma_used_below(indices@, v as int);
        }
        if cache.stamps[v] > 0 {
            unique += 1;
        }
        v += 1;
    }
    proof {
        assert(used_below(indices@, vertex_count as int) =~= indices@.to_set());
        assert(k == mesh::face_count(indices@));
    }
    if warp_offset > 0 {
        executed += 1;
    }
    if transformed > u32::MAX as usize {
        None
    } else {
        Some(
            VertexCacheStatistics {
                vertices_transformed: transformed as u32,
                warps_executed: executed as u32,
                index_count: n,
                unique_vertex_count: unique,
            },
        )
    }
}

proof fn lemma_stamps_hit_positive(
    cache: Seq<u32>,
    stamps: Seq<u128>,
    time: int,
    hw: Hardware,
    v: u32,
)
    requires
        stamps_inv(cache, stamps, time, hw.cache_size),
        v < stamps.len(),
        cache.contains(v),
    ensures
        stamps[v as int] > 0,
{
    lemma_stamps_hit(cache, stamps, time, hw.cache_size, v);
}

proof fn lemma_used_below(indices: Seq<u32>, v: int)
    requires
        0 <= v,
        used_below(indices, v).finite(),
    ensures
        used_below(indices, v + 1).finite(),
        used_below(indices, v + 1).len() == used_below(indices, v).len() + (if is_used(
            indices,
            indices.len() as int,
            v,
        ) {
            1int
        } else {
            0int
        }),
{
    let before = used_below(indices, v);
    let after = used_below(indices, v + 1);
    if is_used(indices, indices.len() as int, v) {
        let i = choose|i: int| 0 <= i < indices.len() && #[trigger] indices[i] == v;
        let x = indices[i];
        assert(indices.contains(x));
        assert(after =~= before.insert(x));
    } else {
        assert forall|x: u32| after.contains(x) implies before.contains(x) by {
            if x == v {
                let i = choose|i: int| 0 <= i < indices.len() && indices[i] == x;
                assert(indices[i] == v);
            }
        }
        assert(after =~= before);
    }
}

/// What holds of a simulation once the corners `seen` were fetched.
spec fn seen_inv(s: Simulation, seen: Seq<u32>) -> bool {
    &&& forall|v: u32| #[trigger] s.cache.contains(v) ==> seen.contains(v)
    &&& seen.to_set().len() <= s.transformed <= seen.len()
    &&& s.flushed + s.warp <= s.transformed
    &&& 0 <= s.flushed
    &&& 0 <= s.warp
    &&& seen.len() > 0 ==> s.flushed + s.warp > 0
}

/// A new vertex makes the set of vertices larger by one.
pub proof fn lemma_push_set(seen: Seq<u32>, v: u32)
    ensures
        seen.push(v).to_set() == seen.to_set().insert(v),
        seen.to_set().finite(),
        seen.push(v).to_set().len() == seen.to_set().len() + (if seen.contains(v) {
            0int
        } else {
            1int
        }),
{
    assert forall|u: u32| #[trigger]
        seen.push(v).to_set().contains(u) == seen.to_set().insert(v).contains(u) by {
        if seen.contains(u) {
            let i = choose|i: int| 0 <= i < seen.len() && seen[i] == u;
            assert(seen.push(v)[i] == u);
        }
        assert(seen.push(v)[seen.len() as int] == v);
    }
    assert(seen.push(v).to_set() =~= seen.to_set().insert(v));
    lemma_to_set_is_finite(seen);
    if seen.contains(v) {
        assert(seen.to_set().insert(v) =~= seen.to_set());
    }
}

proof fn lemma_seen_fetch(s: Simulation, hw: Hardware, seen: Seq<u32>, v: u32)
    requires
        seen_inv(s, seen),
    ensures
        seen_inv(s.fetch(hw, v), seen.push(v)),
{
    lemma_push_set(seen, v);
    let after = s.fetch(hw, v);
    assert forall|u: u32| #[trigger] after.cache.contains(u) implies seen.push(v).contains(u) by {
        let k = choose|k: int| 0 <= k < after.cache.len() && after.cache[k] == u;
        if u == v {
            assert(seen.push(v)[seen.len() as int] == v);
        } else {
            if !s.cache.contains(v) && s.cache.len() >= hw.cache_size {
                assert(s.cache[k + 1] == u);
            } else {
                assert(s.cache[k] == u);
            }
            assert(s.cache.contains(u));
            let i = choose|i: int| 0 <= i < seen.len() && seen[i] == u;
            assert(seen.push(v)[i] == u);
        }
    }
    if s.cache.contains(v) {
        assert(seen.contains(v));
    }
}

proof fn lemma_seen(indices: Seq<u32>, hw: Hardware, k: nat)
    requires
        3 * k <= indices.len(),
    ensures
        seen_inv(simulated(indices, hw, k), indices.take(3 * k as int)),
    decreases k,
{
    if k == 0 {
        assert(indices.take(0) =~= Seq::<u32>::empty());
        assert(Seq::<u32>::empty().to_set() =~= Set::<u32>::empty());
    } else {
        lemma_seen(indices, hw, (k - 1) as nat);
        let s = simulated(indices, hw, (k - 1) as nat);
        let corners = mesh::triangle(indices, k - 1);
        let seen = indices.take(3 * (k - 1));
        let start = if s.is_full_for(hw, corners) {
            s.flush()
        } else {
            s
        };
        assert(seen_inv(start, seen));
        lemma_seen_fetch(start, hw, seen, corners[0]);
        let s1 = start.fetch(hw, corners[0]);
        let seen1 = seen.push(corners[0]);
        lemma_seen_fetch(s1, hw, seen1, corners[1]);
        let s2 = s1.fetch(hw, corners[1]);
        let seen2 = seen1.push(corners[1]);
        lemma_seen_fetch(s2, hw, seen2, corners[2]);
        assert(indices.take(3 * k as int) =~= seen2.push(corners[2]));
    }
}

/// Every vertex in use is transformed at least once, and no more vertices are transformed than
/// there are corners: three per triangle at worst.
pub proof fn lemma_transformed_bounds(indices: Seq<u32>, hw: Hardware)
    requires
        indices.len() % 3 == 0,
    ensures
        unique_vertex_count(indices) <= vertices_transformed(indices, hw) <= indices.len(),
        vertices_transformed(indices, hw) <= 3 * mesh::face_count(indices),
{
    lemma_seen(indices, hw, mesh::face_count(indices));
    assert(indices.take(indices.len() as int) =~= indices);
}

/// A warp is executed for at least one transformed vertex, and a buffer with triangles takes at
/// least one warp.
pub proof fn lemma_warp_bounds(indices: Seq<u32>, hw: Hardware)
    requires
        indices.len() % 3 == 0,
    ensures
        0 <= warps_executed(indices, hw) <= vertices_transformed(indices, hw),
        warps_executed(indices, hw) == 0 <==> indices.len() == 0,
{
    lemma_seen(indices, hw, mesh::face_count(indices));
    assert(indices.take(indices.len() as int) =~= indices);
}

/// Where no vertex stands at more than `d` corners, the vertices below `v` in use stand at no
/// more than `d` corners each.
proof fn lemma_corners_of_used(indices: Seq<u32>, d: nat, v: int)
    requires
        0 <= v,
        forall|u: int| #[trigger] adjacency::incident(indices, u, indices.len() as int).len() <= d,
    ensures
        used_below(indices, v).finite(),
        adjacency::corners_below(indices, v, indices.len() as int) <= d * used_below(
            indices,
            v,
        ).len(),
    decreases v,
{
    let n = indices.len() as int;
    if v == 0 {
        assert(used_below(indices, 0) =~= Set::<u32>::empty());
    } else {
        lemma_corners_of_used(indices, d, v - 1);
        lemma_used_below(indices, v - 1);
        let x = used_below(indices, v - 1).len();
        assert(d * (x + 1) == d * x + d) by (nonlinear_arith);
        assert(adjacency::incident(indices, v - 1, n).len() <= d);
        if !is_used(indices, n, v - 1) {
            assert forall|i: int| 0 <= i < n implies #[trigger] indices[i] != v - 1 by {
                if indices[i] == v - 1 {
                    assert(is_used(indices, n, v - 1));
                }
            }
            adjacency::lemma_no_corner(indices, v - 1, n);
        }
    }
}

/// Where no vertex stands at more than six corners, as in a regular mesh, the number of
/// transformed vertices is at least 0.5 per triangle and at most 6 per vertex in use.
pub proof fn lemma_regular_mesh_bounds(indices: Seq<u32>, hw: Hardware)
    requires
        indices.len() % 3 == 0,
        forall|v: int| #[trigger] adjacency::incident(indices, v, indices.len() as int).len() <= 6,
    ensures
        mesh::face_count(indices) <= 2 * vertices_transformed(indices, hw),
        vertices_transformed(indices, hw) <= 6 * unique_vertex_count(indices),
{
    let all: int = 0x1_0000_0000;
    lemma_corners_of_used(indices, 6, all);
    adjacency::lemma_corners_below_total(indices, all, indices.len() as int);
    assert(used_below(indices, all) =~= indices.to_set());
    lemma_transformed_bounds(indices, hw);
}

/// Drawing more triangles never lowers the number of vertices transformed.
pub proof fn lemma_transformed_grows(indices: Seq<u32>, hw: Hardware, k: nat, m: nat)
    requires
        k <= m,
    ensures
        simulated(indices, hw, k).transformed <= simulated(indices, hw, m).transformed,
    decreases m,
{
    if k < m {
        lemma_transformed_grows(indices, hw, k, (m - 1) as nat);
    }
}

/// What holds of an unlimited warp with a cache that no vertex has to leave.
spec fn roomy_inv(s: Simulation, seen: Seq<u32>) -> bool {
    &&& s.cache.to_set() == seen.to_set()
    &&& s.cache.no_duplicates()
    &&& s.transformed == s.cache.len()
}

proof fn lemma_roomy_fetch(s: Simulation, hw: Hardware, indices: Seq<u32>, m: int)
    requires
        roomy_inv(s, indices.take(m)),
        0 <= m < indices.len(),
        unique_vertex_count(indices) <= hw.cache_size,
    ensures
        roomy_inv(s.fetch(hw, indices[m]), indices.take(m + 1)),
{
    let seen = indices.take(m);
    let v = indices[m];
    assert(indices.take(m + 1) =~= seen.push(v));
    lemma_push_set(seen, v);
    assert(s.cache.contains(v) <==> s.cache.to_set().contains(v));
    assert(seen.contains(v) <==> seen.to_set().contains(v));
    if !s.cache.contains(v) {
        s.cache.unique_seq_to_set();
        let all = indices.to_set();
        lemma_to_set_is_finite(indices);
        assert(seen.push(v).to_set().subset_of(all)) by {
            assert forall|u: u32| seen.push(v).contains(u) implies indices.contains(u) by {
                let i = choose|i: int| 0 <= i < seen.push(v).len() && seen.push(v)[i] == u;
                assert(indices[i] == u);
            }
        }
        lemma_len_subset(seen.push(v).to_set(), all);
        assert(s.cache.len() < hw.cache_size);
        lemma_push_set(s.cache, v);
        assert(s.cache.push(v).no_duplicates());
    } else {
        assert(seen.to_set().insert(v) =~= seen.to_set());
    }
}

proof fn lemma_to_set_is_finite(s: Seq<u32>)
    ensures
        s.to_set().finite(),
{
}

proof fn lemma_roomy(indices: Seq<u32>, hw: Hardware, k: nat)
    requires
        3 * k <= indices.len(),
        unique_vertex_count(indices) <= hw.cache_size,
        hw.warp_size == 0,
        hw.primgroup_size == 0,
    ensures
        roomy_inv(simulated(indices, hw, k), indices.take(3 * k as int)),
    decreases k,
{
    if k == 0 {
        assert(indices.take(0) =~= Seq::<u32>::empty());
    } else {
        lemma_roomy(indices, hw, (k - 1) as nat);
        let s = simulated(indices, hw, (k - 1) as nat);
        let m: int = 3 * (k - 1);
        lemma_roomy_fetch(s, hw, indices, m);
        let s1 = s.fetch(hw, indices[m]);
        lemma_roomy_fetch(s1, hw, indices, m + 1);
        let s2 = s1.fetch(hw, indices[m + 1]);
        lemma_roomy_fetch(s2, hw, indices, m + 2);
        let corners = mesh::triangle(indices, k - 1);
        assert(corners[0] == indices[m] && corners[1] == indices[m + 1] && corners[2] == indices[m
            + 2]);
    }
}

/// A cache with room for every vertex in use, without limits on warps and primitive groups,
/// transforms each of them once.
pub proof fn lemma_roomy_cache_is_optimal(indices: Seq<u32>, hw: Hardware)
    requires
        indices.len() % 3 == 0,
        unique_vertex_count(indices) <= hw.cache_size,
        hw.warp_size == 0,
        hw.primgroup_size == 0,
    ensures
        vertices_transformed(indices, hw) == unique_vertex_count(indices),
{
    let k = mesh::face_count(indices);
    lemma_roomy(indices, hw, k);
    assert(indices.take(indices.len() as int) =~= indices);
    simulated(indices, hw, k).cache.unique_seq_to_set();
}

/// The triangles of a primitive group never outnumber its size.
pub proof fn lemma_primgroup_fits(indices: Seq<u32>, hw: Hardware, k: nat)
    requires
        hw.primgroup_size > 0,
    ensures
        simulated(indices, hw, k).primgroup <= hw.primgroup_size,
    decreases k,
{
    if k > 0 {
        lemma_primgroup_fits(indices, hw, (k - 1) as nat);
    }
}

/// The vertices of a warp never outnumber its size, provided that the cache holds a warp.
pub proof fn lemma_warp_fits(indices: Seq<u32>, hw: Hardware, k: nat)
    requires
        3 <= hw.warp_size <= hw.cache_size,
    ensures
        0 <= simulated(indices, hw, k).warp <= hw.warp_size,
        simulated(indices, hw, k).cache.len() == simulated(indices, hw, k).warp,
    decreases k,
{
    if k > 0 {
        lemma_warp_fits(indices, hw, (k - 1) as nat);
        let s = simulated(indices, hw, (k - 1) as nat);
        let corners = mesh::triangle(indices, k - 1);
        let start = if s.is_full_for(hw, corners) {
            s.flush()
        } else {
            s
        };
        assert(start.warp + start.missing(corners) <= hw.warp_size);
        lemma_fetch_keeps(start, hw, corners[0], corners[1]);
        lemma_fetch_keeps(start, hw, corners[0], corners[2]);
        let s1 = start.fetch(hw, corners[0]);
        lemma_fetch_keeps(s1, hw, corners[1], corners[2]);
    }
}

proof fn lemma_fetch_keeps(s: Simulation, hw: Hardware, v: u32, u: u32)
    requires
        s.cache.len() < hw.cache_size || s.cache.contains(v),
    ensures
        s.cache.contains(u) ==> s.fetch(hw, v).cache.contains(u),
{
    if s.cache.contains(u) {
        let k = choose|k: int| 0 <= k < s.cache.len() && s.cache[k] == u;
        assert(s.fetch(hw, v).cache[k] == u);
    }
}

/// Reordering the triangles does not change the number of vertices in use.
pub proof fn lemma_reordered_keeps_unique_vertex_count(indices: Seq<u32>, order: Seq<u32>)
    requires
        indices.len() % 3 == 0,
        mesh::is_permutation(order, mesh::face_count(indices)),
    ensures
        unique_vertex_count(mesh::reordered(indices, order)) == unique_vertex_count(indices),
{
    mesh::lemma_reordered_keeps_vertices(indices, order);
}

} // verus!
