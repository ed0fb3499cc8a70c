//! Statistics of a buffer in parts.
//!
//! A flush forgets everything: what is drawn after it is counted as if it stood alone. With
//! primitive groups that no warp cuts short, the statistics of a buffer are therefore those of
//! its groups, added up.

use crate::mesh;
use crate::vertex::analyze;
use crate::vertex::analyze::Hardware;
use crate::vertex::analyze::Simulation;
use vstd::prelude::*;

verus! {

/// The same hardware without a limit on primitive groups.
pub open spec fn ungrouped(hw: Hardware) -> Hardware {
    Hardware { primgroup_size: 0, ..hw }
}

/// A whole primitive group fits into a warp, whatever its triangles are.
pub open spec fn warp_holds_group(hw: Hardware) -> bool {
    hw.warp_size == 0 || 3 * hw.primgroup_size <= hw.warp_size
}

/// The numbers of vertices transformed for each primitive group alone, added up. A group has
/// `hw.primgroup_size` triangles, the last one what is left.
pub open spec fn groups_transformed(indices: Seq<u32>, hw: Hardware) -> int
    decreases indices.len(),
{
    let size = 3 * hw.primgroup_size;
    if size <= 0 || indices.len() <= size {
        analyze::vertices_transformed(indices, ungrouped(hw))
    } else {
        analyze::vertices_transformed(indices.take(size), ungrouped(hw)) + groups_transformed(
            indices.skip(size),
            hw,
        )
    }
}

/// The numbers of warps executed for each primitive group alone, added up.
pub open spec fn groups_executed(indices: Seq<u32>, hw: Hardware) -> int
    decreases indices.len(),
{
    let size = 3 * hw.primgroup_size;
    if size <= 0 || indices.len() <= size {
        analyze::warps_executed(indices, ungrouped(hw))
    } else {
        analyze::warps_executed(indices.take(size), ungrouped(hw)) + groups_executed(
            indices.skip(size),
            hw,
        )
    }
}

/// What is drawn later does not change the simulation so far.
pub proof fn lemma_simulated_prefix(indices: Seq<u32>, hw: Hardware, m: int, k: nat)
    requires
        3 * k <= m <= indices.len(),
    ensures
        analyze::simulated(indices.take(m), hw, k) == analyze::simulated(indices, hw, k),
    decreases k,
{
    if k > 0 {
        lemma_simulated_prefix(indices, hw, m, (k - 1) as nat);
        assert(mesh::triangle(indices.take(m), k - 1) =~= mesh::triangle(indices, k - 1));
    }
}

/// The simulation `s` is as `alone`, but for `transformed` vertices and `flushed` warps from
/// before.
spec fn is_ahead(s: Simulation, alone: Simulation, transformed: int, flushed: int) -> bool {
    &&& s.cache == alone.cache
    &&& s.warp == alone.warp
    &&& s.primgroup == alone.primgroup
    &&& s.transformed == alone.transformed + transformed
    &&& s.flushed == alone.flushed + flushed
}

proof fn lemma_draw_ahead(
    s: Simulation,
    alone: Simulation,
    hw: Hardware,
    corners: Seq<u32>,
    transformed: int,
    flushed: int,
)
    requires
        is_ahead(s, alone, transformed, flushed),
    ensures
        is_ahead(s.draw(hw, corners), alone.draw(hw, corners), transformed, flushed),
{
}

/// After a flush before triangle `k`, drawing goes on as from the start.
proof fn lemma_after_flush(indices: Seq<u32>, hw: Hardware, k: nat, j: nat)
    requires
        indices.len() % 3 == 0,
        k + j <= mesh::face_count(indices),
        0 < j,
        analyze::simulated(indices, hw, k).is_full_for(hw, mesh::triangle(indices, k as int)),
    ensures
        is_ahead(
            analyze::simulated(indices, hw, k + j),
            analyze::simulated(indices.skip(3 * k as int), hw, j),
            analyze::simulated(indices, hw, k).transformed,
            analyze::simulated(indices, hw, k).flush().flushed,
        ),
    decreases j,
{
    let back = indices.skip(3 * k as int);
    let s = analyze::simulated(indices, hw, k);
    assert(mesh::triangle(back, j - 1) =~= mesh::triangle(indices, k + j - 1));
    if j == 1 {
        let corners = mesh::triangle(indices, k as int);
        let start = Simulation::start();
        assert(analyze::simulated(back, hw, 0) == start);
        assert(analyze::simulated(back, hw, 1) == start.draw(hw, corners));
        assert(analyze::simulated(indices, hw, k + 1) == s.draw(hw, corners));
        assert(start.flush().cache =~= start.cache);
    } else {
        lemma_after_flush(indices, hw, k, (j - 1) as nat);
        lemma_draw_ahead(
            analyze::simulated(indices, hw, (k + j - 1) as nat),
            analyze::simulated(back, hw, (j - 1) as nat),
            hw,
            mesh::triangle(back, j - 1),
            s.transformed,
            s.flush().flushed,
        );
    }
}

/// Where triangle `k` does not fit into the warp or the primitive group any more, the
/// statistics are those of the triangles before it and of those from it on, each taken alone.
pub proof fn lemma_statistics_split(indices: Seq<u32>, hw: Hardware, k: nat)
    requires
        indices.len() % 3 == 0,
        k < mesh::face_count(indices),
        analyze::simulated(indices, hw, k).is_full_for(hw, mesh::triangle(indices, k as int)),
    ensures
        ({
            let front = indices.take(3 * k as int);
            let back = indices.skip(3 * k as int);
            &&& analyze::vertices_transformed(indices, hw) == analyze::vertices_transformed(
                front,
                hw,
            ) + analyze::vertices_transformed(back, hw)
            &&& analyze::warps_executed(indices, hw) == analyze::warps_executed(front, hw)
                + analyze::warps_executed(back, hw)
        }),
{
    let n = mesh::face_count(indices);
    lemma_simulated_prefix(indices, hw, 3 * k as int, k);
    lemma_after_flush(indices, hw, k, (n - k) as nat);
}

/// Within a primitive group nothing is flushed.
proof fn lemma_group_alone(indices: Seq<u32>, hw: Hardware, k: nat)
    requires
        k <= hw.primgroup_size,
        warp_holds_group(hw),
    ensures
        analyze::simulated(indices, hw, k) == analyze::simulated(indices, ungrouped(hw), k),
        analyze::simulated(indices, hw, k).primgroup == k,
        0 <= analyze::simulated(indices, hw, k).warp <= 3 * k,
    decreases k,
{
    if k > 0 {
        lemma_group_alone(indices, hw, (k - 1) as nat);
    }
}

/// With primitive groups that fit into a warp, the statistics are those of the groups, each
/// taken alone, added up.
pub proof fn lemma_statistics_of_groups(indices: Seq<u32>, hw: Hardware)
    requires
        indices.len() % 3 == 0,
        hw.primgroup_size > 0,
        warp_holds_group(hw),
    ensures
        analyze::vertices_transformed(indices, hw) == groups_transformed(indices, hw),
        analyze::warps_executed(indices, hw) == groups_executed(indices, hw),
    decreases indices.len(),
{
    let p = hw.primgroup_size as nat;
    let size = 3 * hw.primgroup_size;
    if indices.len() <= size {
        lemma_group_alone(indices, hw, mesh::face_count(indices));
    } else {
        lemma_group_alone(indices, hw, p);
        lemma_statistics_split(indices, hw, p);
        lemma_group_alone(indices.take(size), hw, p);
        lemma_statistics_of_groups(indices.skip(size), hw);
    }
}

} // verus!
