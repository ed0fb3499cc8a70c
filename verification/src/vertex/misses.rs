//! Statistics counted from the misses of the cache.
//!
//! A vertex is transformed unless it is among the last vertices transformed, as many as the
//! cache holds. As long as every triangle fits into the warp and the primitive group, this
//! alone gives the statistics; at the first triangle that does not fit, counting starts anew.

use crate::mesh;
use crate::vertex::analyze;
use crate::vertex::analyze::Hardware;
use crate::vertex::analyze::Simulation;
use crate::vertex::groups;
use vstd::prelude::*;

verus! {

/// The last entries of `log`, at most `size` of them.
pub open spec fn latest(log: Seq<u32>, size: int) -> Seq<u32> {
    log.skip(if log.len() > size {
        log.len() - size
    } else {
        0
    })
}

/// The vertices transformed, first to last, where `corners` are fetched one after the other: each
/// one that is not among the last `cache_size` vertices transformed.
pub open spec fn misses(corners: Seq<u32>, cache_size: int) -> Seq<u32>
    decreases corners.len(),
{
    if corners.len() == 0 {
        Seq::empty()
    } else {
        let before = misses(corners.drop_last(), cache_size);
        if latest(before, cache_size).contains(corners.last()) {
            before
        } else {
            before.push(corners.last())
        }
    }
}

/// 1 if vertex `v` is to be transformed after `corners` were fetched, or 0.
pub open spec fn is_miss(corners: Seq<u32>, cache_size: int, v: u32) -> int {
    if latest(misses(corners, cache_size), cache_size).contains(v) {
        0
    } else {
        1
    }
}

/// Triangle `k` fits into the primitive group and into the warp that the triangles before it
/// have begun: the group has room for one triangle more, and the warp for the vertices
/// transformed so far and the corners of the triangle that are not in the cache.
pub open spec fn fits(indices: Seq<u32>, hw: Hardware, k: int) -> bool {
    let before = indices.take(3 * k);
    let wanted = misses(before, hw.cache_size).len() + is_miss(
        before,
        hw.cache_size,
        indices[3 * k],
    ) + is_miss(before, hw.cache_size, indices[3 * k + 1]) + is_miss(
        before,
        hw.cache_size,
        indices[3 * k + 2],
    );
    &&& hw.primgroup_size <= 0 || k < hw.primgroup_size
    &&& hw.warp_size <= 0 || wanted <= hw.warp_size
}

/// The simulation `s` has fetched `corners` without a flush.
spec fn has_fetched(s: Simulation, hw: Hardware, corners: Seq<u32>) -> bool {
    let log = misses(corners, hw.cache_size);
    &&& s.cache == latest(log, hw.cache_size)
    &&& s.transformed == log.len()
    &&& s.warp == log.len()
    &&& s.flushed == 0
}

proof fn lemma_fetch(s: Simulation, hw: Hardware, corners: Seq<u32>, v: u32)
    requires
        hw.cache_size > 0,
        has_fetched(s, hw, corners),
    ensures
        has_fetched(s.fetch(hw, v), hw, corners.push(v)),
{
    let log = misses(corners, hw.cache_size);
    assert(corners.push(v).drop_last() =~= corners);
    assert(corners.push(v).last() == v);
    if !s.cache.contains(v) {
        assert(s.fetch(hw, v).cache =~= latest(log.push(v), hw.cache_size));
    }
}

proof fn lemma_unflushed(indices: Seq<u32>, hw: Hardware, k: nat)
    requires
        3 * k <= indices.len(),
        hw.cache_size > 0,
        forall|j: int| 0 <= j < k ==> #[trigger] fits(indices, hw, j),
    ensures
        has_fetched(analyze::simulated(indices, hw, k), hw, indices.take(3 * k as int)),
        analyze::simulated(indices, hw, k).primgroup == k,
    decreases k,
{
    if k == 0 {
        assert(indices.take(0) =~= Seq::<u32>::empty());
        assert(latest(Seq::empty(), hw.cache_size) =~= Seq::<u32>::empty());
    } else {
        let j = (k - 1) as nat;
        lemma_unflushed(indices, hw, j);
        let m = 3 * j as int;
        let before = indices.take(m);
        let s = analyze::simulated(indices, hw, j);
        let corners = mesh::triangle(indices, j as int);
        assert(corners[0] == indices[m] && corners[1] == indices[m + 1] && corners[2] == indices[m
            + 2]);
        assert(fits(indices, hw, j as int));
        assert(!s.is_full_for(hw, corners));
        lemma_fetch(s, hw, before, corners[0]);
        let s1 = s.fetch(hw, corners[0]);
        lemma_fetch(s1, hw, before.push(corners[0]), corners[1]);
        let s2 = s1.fetch(hw, corners[1]);
        lemma_fetch(s2, hw, before.push(corners[0]).push(corners[1]), corners[2]);
        assert(indices.take(3 * k as int) =~= before.push(corners[0]).push(corners[1]).push(
            corners[2],
        ));
    }
}

proof fn lemma_some_miss(corners: Seq<u32>, cache_size: int)
    requires
        corners.len() > 0,
        cache_size > 0,
    ensures
        misses(corners, cache_size).len() > 0,
    decreases corners.len(),
{
    if corners.len() > 1 {
        lemma_some_miss(corners.drop_last(), cache_size);
    } else {
        assert(corners.drop_last() =~= Seq::<u32>::empty());
        assert(misses(Seq::empty(), cache_size) =~= Seq::<u32>::empty());
        assert(latest(Seq::empty(), cache_size) =~= Seq::<u32>::empty());
    }
}

/// Where every triangle fits into the warp and the primitive group, the vertices transformed are
/// the misses of the whole buffer, in one warp.
pub proof fn lemma_statistics_within_limits(indices: Seq<u32>, hw: Hardware)
    requires
        indices.len() % 3 == 0,
        hw.cache_size > 0,
        forall|j: int| 0 <= j < mesh::face_count(indices) ==> #[trigger] fits(indices, hw, j),
    ensures
        analyze::vertices_transformed(indices, hw) == misses(indices, hw.cache_size).len(),
        analyze::warps_executed(indices, hw) == (if indices.len() == 0 {
            0int
        } else {
            1int
        }),
{
    lemma_unflushed(indices, hw, mesh::face_count(indices));
    assert(indices.take(indices.len() as int) =~= indices);
    if indices.len() > 0 {
        lemma_some_miss(indices, hw.cache_size);
    }
}

/// Where triangle `k` is the first that does not fit into the warp or the primitive group, the
/// triangles before it are one warp, which transforms their misses, and the statistics of the
/// triangles from it on are added.
pub proof fn lemma_statistics_beyond_limits(indices: Seq<u32>, hw: Hardware, k: nat)
    requires
        indices.len() % 3 == 0,
        hw.cache_size > 0,
        0 < k < mesh::face_count(indices),
        forall|j: int| 0 <= j < k ==> #[trigger] fits(indices, hw, j),
        !fits(indices, hw, k as int),
    ensures
        ({
            let front = indices.take(3 * k as int);
            let back = indices.skip(3 * k as int);
            &&& analyze::vertices_transformed(indices, hw) == misses(front, hw.cache_size).len()
                + analyze::vertices_transformed(back, hw)
            &&& analyze::warps_executed(indices, hw) == 1 + analyze::warps_executed(back, hw)
        }),
{
    let m = 3 * k as int;
    let front = indices.take(m);
    lemma_unflushed(indices, hw, k);
    lemma_some_miss(front, hw.cache_size);
    assert(fits(indices, hw, k - 1));
    let corners = mesh::triangle(indices, k as int);
    assert(corners[0] == indices[m] && corners[1] == indices[m + 1] && corners[2] == indices[m
        + 2]);
    groups::lemma_statistics_split(indices, hw, k);
    groups::lemma_simulated_prefix(indices, hw, m, k);
}

/// The first triangle always fits, as far as a warp holds three vertices.
pub proof fn lemma_first_fits(indices: Seq<u32>, hw: Hardware)
    requires
        hw.warp_size <= 0 || hw.warp_size >= 3,
    ensures
        fits(indices, hw, 0),
{
    assert(indices.take(0) =~= Seq::<u32>::empty());
    assert(misses(indices.take(0), hw.cache_size).len() == 0);
}

/// No warp holds more than two vertices beyond its size, whatever the size of the cache: the
/// corners counted before a triangle is drawn fit, and of the others at most two are pushed out
/// of the cache while it is drawn.
pub proof fn lemma_warp_limit(indices: Seq<u32>, hw: Hardware, k: nat)
    requires
        hw.warp_size > 0,
    ensures
        ({
            let s = analyze::simulated(indices, hw, k);
            &&& 0 <= s.warp <= hw.warp_size + 2
            &&& 0 <= s.flushed
            &&& s.transformed <= s.flushed * (hw.warp_size + 2) + s.warp
        }),
    decreases k,
{
    if k > 0 {
        lemma_warp_limit(indices, hw, (k - 1) as nat);
        let s = analyze::simulated(indices, hw, (k - 1) as nat);
        let limit = hw.warp_size + 2;
        assert((s.flushed + 1) * limit == s.flushed * limit + limit) by (nonlinear_arith);
        assert(0int * limit == 0);
    } else {
        assert(0int * (hw.warp_size + 2) == 0);
    }
}

/// A warp size bounds the vertices transformed per warp, whatever the size of the cache.
pub proof fn lemma_transformed_per_warp(indices: Seq<u32>, hw: Hardware)
    requires
        hw.warp_size > 0,
    ensures
        analyze::vertices_transformed(indices, hw) <= analyze::warps_executed(indices, hw) * (
        hw.warp_size + 2),
{
    let k = mesh::face_count(indices);
    lemma_warp_limit(indices, hw, k);
    let s = analyze::simulated(indices, hw, k);
    let limit = hw.warp_size + 2;
    assert((s.flushed + 1) * limit == s.flushed * limit + limit) by (nonlinear_arith);
}

/// The vertices in use are counted one by one: a corner adds one if its vertex is new.
pub proof fn lemma_unique_vertex_count(indices: Seq<u32>, v: u32)
    ensures
        analyze::unique_vertex_count(Seq::empty()) == 0,
        analyze::unique_vertex_count(indices.push(v)) == analyze::unique_vertex_count(indices) + (
        if indices.contains(v) {
            0int
        } else {
            1int
        }),
{
    analyze::lemma_push_set(indices, v);
    assert(Seq::<u32>::empty().to_set() =~= Set::<u32>::empty());
}

/// A vertex is not transformed again before `cache_size` others are.
pub proof fn lemma_misses_apart(corners: Seq<u32>, cache_size: int, i: int, j: int)
    requires
        0 < cache_size,
        0 <= i < j < misses(corners, cache_size).len(),
        j - i <= cache_size,
    ensures
        misses(corners, cache_size)[i] != misses(corners, cache_size)[j],
    decreases corners.len(),
{
    let front = corners.drop_last();
    let log = misses(front, cache_size);
    if j < log.len() {
        lemma_misses_apart(front, cache_size, i, j);
    } else {
        let d: int = if log.len() > cache_size { log.len() - cache_size } else { 0 };
        assert(latest(log, cache_size)[i - d] == log[i]);
    }
}

} // verus!
