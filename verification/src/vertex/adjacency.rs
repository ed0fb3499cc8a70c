//! For each vertex, the triangles that have it as a corner.

use crate::mesh;
use crate::util::fill_slice;
use vstd::prelude::*;

verus! {

/// The triangles around each vertex: those of vertex `v` are `counts[v]` entries of `data`
/// from `offsets[v]` on.
pub struct TriangleAdjacency {
    pub counts: Vec<u32>,
    pub offsets: Vec<u32>,
    pub data: Vec<u32>,
}

impl TriangleAdjacency {
    /// The entries of each vertex lie within `data`, and those of different vertices apart.
    pub open spec fn wf(self) -> bool {
        &&& self.counts@.len() == self.offsets@.len()
        &&& forall|v: int|
            0 <= v < self.counts@.len() ==> #[trigger] self.offsets@[v] + self.counts@[v]
                <= self.data@.len()
        &&& forall|u: int, v: int|
            0 <= u < v < self.counts@.len() ==> #[trigger] self.offsets@[u] + self.counts@[u]
                <= #[trigger] self.offsets@[v]
    }

    /// The triangles listed for vertex `v`.
    pub open spec fn list(self, v: int) -> Seq<u32> {
        self.data@.subrange(
            self.offsets@[v] as int,
            self.offsets@[v] as int + self.counts@[v] as int,
        )
    }

    /// The triangles listed for every vertex.
    pub open spec fn lists(self) -> Seq<Seq<u32>> {
        Seq::new(self.counts@.len(), |v: int| self.list(v))
    }

    /// An adjacency without vertices.
    pub fn new() -> (adjacency: TriangleAdjacency)
        ensures
            adjacency.wf(),
            adjacency.counts@ == Seq::<u32>::empty(),
            adjacency.offsets@ == Seq::<u32>::empty(),
            adjacency.data@ == Seq::<u32>::empty(),
            adjacency.lists() == Seq::<Seq<u32>>::empty(),
    {
        let adjacency = TriangleAdjacency {
            counts: Vec::new(),
            offsets: Vec::new(),
            data: Vec::new(),
        };
        assert(adjacency.lists() =~= Seq::<Seq<u32>>::empty());
        adjacency
    }
}

/// The triangle of each of the first `n` corners at which vertex `v` stands, in the order of
/// the corners. A triangle with `v` at two corners is listed twice.
pub open spec fn incident(indices: Seq<u32>, v: int, n: int) -> Seq<u32>
    decreases n,
{
    if n <= 0 {
        Seq::empty()
    } else if indices[n - 1] == v {
        incident(indices, v, n - 1).push(((n - 1) / 3) as u32)
    } else {
        incident(indices, v, n - 1)
    }
}

/// The triangles around each of the vertices below `vertex_count`.
pub open spec fn incidence(indices: Seq<u32>, vertex_count: nat) -> Seq<Seq<u32>> {
    Seq::new(vertex_count, |v: int| incident(indices, v, indices.len() as int))
}

/// How many of the first `n` corners hold a vertex below `v`.
pub open spec fn corners_below(indices: Seq<u32>, v: int, n: int) -> int
    decreases v,
{
    if v <= 0 {
        0
    } else {
        corners_below(indices, v - 1, n) + incident(indices, v - 1, n).len()
    }
}

proof fn lemma_incident_len(indices: Seq<u32>, v: int, m: int, n: int)
    requires
        0 <= m <= n,
    ensures
        incident(indices, v, m).len() <= incident(indices, v, n).len(),
        incident(indices, v, n).len() <= n,
    decreases n,
{
    if n > 0 {
        if m < n {
            lemma_incident_len(indices, v, m, n - 1);
        } else {
            lemma_incident_len(indices, v, 0, n - 1);
        }
    }
}

proof fn lemma_corners_below_push(indices: Seq<u32>, v: int, n: int)
    requires
        0 < n <= indices.len(),
        0 <= v,
    ensures
        corners_below(indices, v, n) == corners_below(indices, v, n - 1) + (if indices[n - 1] < v {
            1int
        } else {
            0int
        }),
    decreases v,
{
    if v > 0 {
        lemma_corners_below_push(indices, v - 1, n);
    }
}

/// Every corner holds some vertex.
pub proof fn lemma_corners_below_total(indices: Seq<u32>, vertex_count: int, n: int)
    requires
        0 <= n <= indices.len(),
        0 <= vertex_count,
        forall|i: int| 0 <= i < indices.len() ==> #[trigger] indices[i] < vertex_count,
    ensures
        corners_below(indices, vertex_count, n) == n,
    decreases n, vertex_count,
{
    if n > 0 {
        lemma_corners_below_push(indices, vertex_count, n);
        lemma_corners_below_total(indices, vertex_count, n - 1);
    } else {
        lemma_corners_below_none(indices, vertex_count);
    }
}

proof fn lemma_corners_below_none(indices: Seq<u32>, v: int)
    ensures
        corners_below(indices, v, 0) == 0,
    decreases v,
{
    if v > 0 {
        lemma_corners_below_none(indices, v - 1);
    }
}

proof fn lemma_corners_below_order(indices: Seq<u32>, u: int, v: int, n: int)
    requires
        0 <= u < v,
    ensures
        0 <= corners_below(indices, u, n),
        corners_below(indices, u, n) + incident(indices, u, n).len() <= corners_below(
            indices,
            v,
            n,
        ),
    decreases v,
{
    if u + 1 < v {
        lemma_corners_below_order(indices, u, v - 1, n);
    } else if u > 0 {
        lemma_corners_below_order(indices, u - 1, u, n);
    }
}

/// Lists, for every vertex, the triangles that have it as a corner.
pub fn build_triangle_adjacency(
    adjacency: &mut TriangleAdjacency,
    indices: &[u32],
    vertex_count: usize,
)
    requires
        mesh::is_mesh(indices@, vertex_count as int),
        indices@.len() <= u32::MAX,
    ensures
        final(adjacency).wf(),
        final(adjacency).data@.len() == indices@.len(),
        final(adjacency).counts@.len() == vertex_count,
        final(adjacency).lists() == incidence(indices@, vertex_count as nat),
{
    let n: usize = indices.len();
    // allocate arrays
    let mut counts: Vec<u32> = vec![0; vertex_count];
    let mut offsets: Vec<u32> = vec![0; vertex_count];
    let mut data: Vec<u32> = vec![0; n];

    // fill triangle counts
    fill_slice(counts.as_mut_slice(), 0);
    let mut i: usize = 0;
    while i < n
        invariant
            i <= n,
            n == indices@.len(),
            n <= u32::MAX,
            counts@.len() == vertex_count,
            mesh::is_mesh(indices@, vertex_count as int),
            forall|v: int|
                0 <= v < vertex_count ==> #[trigger] counts@[v] == incident(
                    indices@,
                    v,
                    i as int,
                ).len(),
        decreases n - i,
    {
        let index: usize = indices[i] as usize;
        proof {
            lemma_incident_len(indices@, index as int, 0, i as int);
        }
        counts[index] = counts[index] + 1;
        i += 1;
    }

    // fill offset table
    let mut offset: u32 = 0;
    i = 0;
    while i < vertex_count
        invariant
            i <= vertex_count,
            n == indices@.len(),
            n <= u32::MAX,
            counts@.len() == vertex_count,
            offsets@.len() == vertex_count,
            mesh::is_mesh(indices@, vertex_count as int),
            offset == corners_below(indices@, i as int, n as int),
            forall|v: int|
                0 <= v < vertex_count ==> #[trigger] counts@[v] == incident(
                    indices@,
                    v,
                    n as int,
                ).len(),
            forall|v: int|
                0 <= v < i ==> #[trigger] offsets@[v] == corners_below(indices@, v, n as int),
        decreases vertex_count - i,
    {
        proof {
            lemma_corners_below_order(indices@, i as int, vertex_count as int, n as int);
            lemma_corners_below_total(indices@, vertex_count as int, n as int);
        }
        offsets[i] = offset;
        offset += counts[i];
        i += 1;
    }

    // fill triangle data
    i = 0;
    assert forall|v: int| 0 <= v < vertex_count implies #[trigger] data@.subrange(
        corners_below(indices@, v, n as int),
        corners_below(indices@, v, n as int) + incident(indices@, v, 0).len(),
    ) =~= incident(indices@, v, 0) by {
        lemma_corners_below_order(indices@, v, vertex_count as int, n as int);
        lemma_corners_below_total(indices@, vertex_count as int, n as int);
    }
    while i < n
        invariant
            i <= n,
            n == indices@.len(),
            n <= u32::MAX,
            counts@.len() == vertex_count,
            offsets@.len() == vertex_count,
            data@.len() == n,
            mesh::is_mesh(indices@, vertex_count as int),
            forall|v: int|
                0 <= v < vertex_count ==> #[trigger] counts@[v] == incident(
                    indices@,
                    v,
                    n as int,
                ).len(),
            forall|v: int|
                0 <= v < vertex_count ==> #[trigger] offsets@[v] == corners_below(
                    indices@,
                    v,
                    n as int,
                ) + incident(indices@, v, i as int).len(),
            forall|v: int|
                0 <= v < vertex_count ==> #[trigger] data@.subrange(
                    corners_below(indices@, v, n as int),
                    corners_below(indices@, v, n as int) + incident(indices@, v, i as int).len(),
                ) == incident(indices@, v, i as int),
        decreases n - i,
    {
        let a: usize = indices[i] as usize;
        let o: u32 = offsets[a];
        let ghost data0 = data@;
        proof {
            lemma_incident_len(indices@, a as int, i + 1, n as int);
            lemma_corners_below_order(indices@, a as int, vertex_count as int, n as int);
            lemma_corners_below_total(indices@, vertex_count as int, n as int);
        }
        data[o as usize] = (i / 3) as u32;
        offsets[a] = o + 1;
        proof {
            assert forall|v: int| 0 <= v < vertex_count implies #[trigger] data@.subrange(
                corners_below(indices@, v, n as int),
                corners_below(indices@, v, n as int) + incident(indices@, v, i + 1).len(),
            ) =~= incident(indices@, v, i + 1) by {
                let s = corners_below(indices@, v, n as int);
                let before = incident(indices@, v, i as int);
                lemma_incident_len(indices@, v, i as int, n as int);
                lemma_corners_below_order(indices@, v, vertex_count as int, n as int);
                if v < a {
                    lemma_corners_below_order(indices@, v, a as int, n as int);
                }
                if a < v {
                    lemma_corners_below_order(indices@, a as int, v, n as int);
                }
                assert(data0.subrange(s, s + before.len()) == before);
                assert forall|k: int| 0 <= k < before.len() implies data@[s + k] == before[k] by {
                    assert(data0.subrange(s, s + before.len())[k] == data0[s + k]);
                }
            }
        }
        i += 1;
    }

    // fix offsets that have been disturbed by the previous pass
    i = 0;
    while i < vertex_count
        invariant
            i <= vertex_count,
            n == indices@.len(),
            counts@.len() == vertex_count,
            offsets@.len() == vertex_count,
            data@.len() == n,
            forall|v: int|
                0 <= v < vertex_count ==> #[trigger] counts@[v] == incident(
                    indices@,
                    v,
                    n as int,
                ).len(),
            forall|v: int|
                0 <= v < vertex_count ==> #[trigger] offsets@[v] == corners_below(
                    indices@,
                    v,
                    n as int,
                ) + (if v < i {
                    0
                } else {
                    incident(indices@, v, n as int).len() as int
                }),
        decreases vertex_count - i,
    {
        proof {
            lemma_corners_below_order(indices@, i as int, vertex_count as int, n as int);
        }
        offsets[i] = offsets[i] - counts[i];
        i += 1;
    }
    adjacency.counts = counts;
    adjacency.offsets = offsets;
    adjacency.data = data;
    proof {
        lemma_corners_below_total(indices@, vertex_count as int, n as int);
        assert forall|v: int| 0 <= v < vertex_count implies #[trigger] adjacency.offsets@[v]
            + adjacency.counts@[v] <= adjacency.data@.len() && adjacency.list(v) == incident(
            indices@,
            v,
            n as int,
        ) by {
            lemma_corners_below_order(indices@, v, vertex_count as int, n as int);
        }
        assert forall|u: int, v: int|
            0 <= u < v < vertex_count implies #[trigger] adjacency.offsets@[u]
            + adjacency.counts@[u] <= #[trigger] adjacency.offsets@[v] by {
            lemma_corners_below_order(indices@, u, v, n as int);
        }
        assert(adjacency.lists() =~= incidence(indices@, vertex_count as nat));
    }
}

/// A vertex that stands at no corner has no triangles.
pub proof fn lemma_no_corner(indices: Seq<u32>, v: int, n: int)
    requires
        0 <= n <= indices.len(),
        forall|i: int| 0 <= i < indices.len() ==> #[trigger] indices[i] != v,
    ensures
        incident(indices, v, n).len() == 0,
    decreases n,
{
    if n > 0 {
        lemma_no_corner(indices, v, n - 1);
    }
}

/// The first position of `t` in `list` from `from` on, or the length of `list`.
pub open spec fn first_index(list: Seq<u32>, t: u32, from: int) -> int
    decreases list.len() - from,
{
    if from >= list.len() || list[from] == t {
        from
    } else {
        first_index(list, t, from + 1)
    }
}

/// `list` with the first `t` taken out, its place taken by the last entry. A list without
/// `t` stays as it is.
pub open spec fn without(list: Seq<u32>, t: u32) -> Seq<u32> {
    let i = first_index(list, t, 0);
    if i < list.len() {
        list.update(i, list.last()).drop_last()
    } else {
        list
    }
}

/// The lists with triangle `t` taken out at the vertex of corner `corner`.
pub open spec fn detached_at(
    indices: Seq<u32>,
    lists: Seq<Seq<u32>>,
    t: u32,
    corner: int,
) -> Seq<Seq<u32>> {
    let v = indices[3 * t + corner] as int;
    lists.update(v, without(lists[v], t))
}

/// The lists with triangle `t` taken out at each of its three corners.
pub open spec fn detached(indices: Seq<u32>, lists: Seq<Seq<u32>>, t: u32) -> Seq<Seq<u32>> {
    let first = detached_at(indices, lists, t, 0);
    let second = detached_at(indices, first, t, 1);
    detached_at(indices, second, t, 2)
}

/// How many of the corners of triangle `t` among the first `n` corners hold vertex `v`.
pub open spec fn corners_at(indices: Seq<u32>, v: int, t: int, n: int) -> nat {
    (if 3 * t < n && indices[3 * t] == v {
        1nat
    } else {
        0nat
    }) + (if 3 * t + 1 < n && indices[3 * t + 1] == v {
        1nat
    } else {
        0nat
    }) + (if 3 * t + 2 < n && indices[3 * t + 2] == v {
        1nat
    } else {
        0nat
    })
}

/// The lists hold exactly the triangles that `emitted` does not: a triangle is listed for a
/// vertex once for each of its corners there, until it is emitted.
pub open spec fn lists_live(
    indices: Seq<u32>,
    lists: Seq<Seq<u32>>,
    emitted: Seq<u32>,
) -> bool {
    forall|v: int, t: u32|
        0 <= v < lists.len() ==> #[trigger] lists[v].to_multiset().count(t) == (if emitted.contains(
            t,
        ) {
            0
        } else {
            corners_at(indices, v, t as int, indices.len() as int)
        })
}

proof fn lemma_first_index(list: Seq<u32>, t: u32, from: int)
    requires
        0 <= from <= list.len(),
        forall|j: int| 0 <= j < from ==> list[j] != t,
    ensures
        from <= first_index(list, t, from) <= list.len(),
        first_index(list, t, from) < list.len() ==> list[first_index(list, t, from)] == t,
        list.contains(t) ==> first_index(list, t, from) < list.len(),
        forall|j: int| 0 <= j < first_index(list, t, from) ==> list[j] != t,
    decreases list.len() - from,
{
    if from < list.len() && list[from] != t {
        lemma_first_index(list, t, from + 1);
    }
}

proof fn lemma_update_multiset(s: Seq<u32>, i: int, x: u32)
    requires
        0 <= i < s.len(),
    ensures
        s.update(i, x).to_multiset() == s.to_multiset().remove(s[i]).insert(x),
{
    let after = s.update(i, x);
    s.to_multiset_ensures();
    after.to_multiset_ensures();
    assert(after.remove(i) =~= s.remove(i));
    assert(after[i] == x);
    assert(after.contains(x));
    assert(s.remove(i).to_multiset() == s.to_multiset().remove(s[i]));
    assert(after.remove(i).to_multiset() == after.to_multiset().remove(x));
    assert(after.to_multiset() =~= after.to_multiset().remove(x).insert(x));
}

proof fn lemma_without_multiset(list: Seq<u32>, t: u32)
    ensures
        without(list, t).to_multiset() == list.to_multiset().remove(t),
{
    lemma_first_index(list, t, 0);
    list.to_multiset_ensures();
    let i = first_index(list, t, 0);
    if i < list.len() {
        let front = list.drop_last();
        let x = list.last();
        assert(list =~= front.push(x));
        front.to_multiset_ensures();
        if i < front.len() {
            assert(without(list, t) =~= front.update(i, x));
            lemma_update_multiset(front, i, x);
            assert(front.contains(t));
            assert(front.to_multiset().remove(t).insert(x) =~= front.to_multiset().insert(
                x,
            ).remove(t));
        } else {
            assert(without(list, t) =~= front);
            assert(front.to_multiset() =~= front.to_multiset().insert(x).remove(x));
        }
    } else {
        assert(!list.contains(t));
        assert(list.to_multiset().remove(t) =~= list.to_multiset());
    }
}

/// Among the first `n` corners, triangle `t` is listed for `v` once for each of its corners at `v`.
pub proof fn lemma_incident_count(indices: Seq<u32>, v: int, t: u32, n: int)
    requires
        0 <= n <= indices.len(),
        indices.len() <= u32::MAX,
    ensures
        incident(indices, v, n).to_multiset().count(t) == corners_at(indices, v, t as int, n),
    decreases n,
{
    if n > 0 {
        lemma_incident_count(indices, v, t, n - 1);
        incident(indices, v, n - 1).to_multiset_ensures();
    } else {
        incident(indices, v, 0).to_multiset_ensures();
        assert(!incident(indices, v, 0).contains(t));
    }
}

/// At the start nothing is emitted and every triangle is listed at its corners.
pub proof fn lemma_incidence_live(indices: Seq<u32>, vertex_count: nat)
    requires
        indices.len() <= u32::MAX,
    ensures
        lists_live(indices, incidence(indices, vertex_count), Seq::empty()),
{
    let lists = incidence(indices, vertex_count);
    assert forall|v: int, t: u32| 0 <= v < lists.len() implies #[trigger] lists[v].to_multiset().count(
        t,
    ) == corners_at(indices, v, t as int, indices.len() as int) by {
        lemma_incident_count(indices, v, t, indices.len() as int);
    }
}

/// Taking out a triangle at its three corners keeps the lists those of the triangles that are
/// not emitted.
pub proof fn lemma_detached_live(
    indices: Seq<u32>,
    lists: Seq<Seq<u32>>,
    emitted: Seq<u32>,
    t: u32,
)
    requires
        mesh::is_mesh(indices, lists.len() as int),
        lists_live(indices, lists, emitted),
        t < mesh::face_count(indices),
        !emitted.contains(t),
    ensures
        lists_live(indices, detached(indices, lists, t), emitted.push(t)),
        detached(indices, lists, t).len() == lists.len(),
{
    let a = indices[3 * t] as int;
    let b = indices[3 * t + 1] as int;
    let c = indices[3 * t + 2] as int;
    let l1 = detached_at(indices, lists, t, 0);
    let l2 = detached_at(indices, l1, t, 1);
    let l3 = detached_at(indices, l2, t, 2);
    lemma_without_multiset(lists[a], t);
    lemma_without_multiset(l1[b], t);
    lemma_without_multiset(l2[c], t);
    assert(emitted.push(t)[emitted.len() as int] == t);
    assert forall|v: int, s: u32| 0 <= v < l3.len() implies #[trigger] l3[v].to_multiset().count(s)
        == (if emitted.push(t).contains(s) {
        0
    } else {
        corners_at(indices, v, s as int, indices.len() as int)
    }) by {
        assert(lists[v].to_multiset().count(s) == (if emitted.contains(s) {
            0
        } else {
            corners_at(indices, v, s as int, indices.len() as int)
        }));
        if emitted.contains(s) {
            let i = choose|i: int| 0 <= i < emitted.len() && emitted[i] == s;
            assert(emitted.push(t)[i] == s);
        }
        assert(lists[a].to_multiset().remove(t).count(s) == (if s == t {
            (if lists[a].to_multiset().count(s) > 0 {
                (lists[a].to_multiset().count(s) - 1) as nat
            } else {
                0
            })
        } else {
            lists[a].to_multiset().count(s)
        }));
        assert(l1[b].to_multiset().remove(t).count(s) == (if s == t {
            (if l1[b].to_multiset().count(s) > 0 {
                (l1[b].to_multiset().count(s) - 1) as nat
            } else {
                0
            })
        } else {
            l1[b].to_multiset().count(s)
        }));
        assert(l2[c].to_multiset().remove(t).count(s) == (if s == t {
            (if l2[c].to_multiset().count(s) > 0 {
                (l2[c].to_multiset().count(s) - 1) as nat
            } else {
                0
            })
        } else {
            l2[c].to_multiset().count(s)
        }));
    }
}

/// Taking `t` out of a list removes one entry, and only it: the last entry takes the place of the
/// first `t`, and all others stay where they are. A list without `t` stays as it is.
pub proof fn lemma_without(list: Seq<u32>, t: u32)
    ensures
        !list.contains(t) ==> without(list, t) == list,
        list.contains(t) ==> exists|i: int|
            0 <= i < list.len() && #[trigger] list[i] == t && (forall|j: int|
                0 <= j < i ==> #[trigger] list[j] != t) && without(list, t).len() == list.len() - 1
                && forall|j: int|
                0 <= j < list.len() - 1 ==> #[trigger] without(list, t)[j] == (if j == i {
                    list[list.len() - 1]
                } else {
                    list[j]
                }),
{
    lemma_first_index(list, t, 0);
    let i = first_index(list, t, 0);
    if list.contains(t) {
        assert(list[i] == t);
    }
}

/// Taking out a triangle shortens the list of a vertex by its corners there.
pub proof fn lemma_detached_len(
    indices: Seq<u32>,
    lists: Seq<Seq<u32>>,
    emitted: Seq<u32>,
    t: u32,
    v: int,
)
    requires
        mesh::is_mesh(indices, lists.len() as int),
        lists_live(indices, lists, emitted),
        t < mesh::face_count(indices),
        !emitted.contains(t),
        0 <= v < lists.len(),
    ensures
        detached(indices, lists, t)[v].len() == lists[v].len() - corners_at(
            indices,
            v,
            t as int,
            indices.len() as int,
        ),
{
    let after = detached(indices, lists, t);
    let a = indices[3 * t] as int;
    let b = indices[3 * t + 1] as int;
    let c = indices[3 * t + 2] as int;
    let l1 = detached_at(indices, lists, t, 0);
    let l2 = detached_at(indices, l1, t, 1);
    assert(lists[a].to_multiset().count(t) == corners_at(indices, a, t as int, indices.len() as int));
    assert(lists[b].to_multiset().count(t) == corners_at(indices, b, t as int, indices.len() as int));
    assert(lists[c].to_multiset().count(t) == corners_at(indices, c, t as int, indices.len() as int));
    lemma_without_multiset(lists[a], t);
    lemma_without_multiset(l1[b], t);
    lists[a].to_multiset_ensures();
    l1[b].to_multiset_ensures();
    l2[c].to_multiset_ensures();
    assert(lists[a].contains(t));
    assert(lists[a].to_multiset().remove(t).count(t) == lists[a].to_multiset().count(t) - 1);
    assert(l1[b].to_multiset().count(t) > 0);
    assert(l1[b].contains(t));
    assert(l1[b].to_multiset().remove(t).count(t) == l1[b].to_multiset().count(t) - 1);
    assert(l2[c].to_multiset().count(t) > 0);
    assert(l2[c].contains(t));
    lemma_first_index(lists[a], t, 0);
    lemma_first_index(l1[b], t, 0);
    lemma_first_index(l2[c], t, 0);
}

/// A triangle listed for some vertex is one of the mesh and is not emitted.
pub proof fn lemma_listed(
    indices: Seq<u32>,
    lists: Seq<Seq<u32>>,
    emitted: Seq<u32>,
    v: int,
    i: int,
)
    requires
        indices.len() % 3 == 0,
        lists_live(indices, lists, emitted),
        0 <= v < lists.len(),
        0 <= i < lists[v].len(),
    ensures
        lists[v][i] < mesh::face_count(indices),
        !emitted.contains(lists[v][i]),
{
    let t = lists[v][i];
    lists[v].to_multiset_ensures();
    assert(lists[v].contains(t));
    assert(lists[v].to_multiset().count(t) > 0);
}

impl TriangleAdjacency {
    /// Takes the first entry `triangle` out of the list of `vertex`, if it is there.
    pub fn remove(&mut self, vertex: usize, triangle: u32)
        requires
            old(self).wf(),
            vertex < old(self).counts@.len(),
        ensures
            final(self).wf(),
            final(self).counts@.len() == old(self).counts@.len(),
            final(self).offsets@ == old(self).offsets@,
            final(self).data@.len() == old(self).data@.len(),
            final(self).lists() == old(self).lists().update(
                vertex as int,
                without(old(self).list(vertex as int), triangle),
            ),
    {
        let ghost before = *self;
        let ghost list = self.list(vertex as int);
        let begin: usize = self.offsets[vertex] as usize;
        let size: usize = self.counts[vertex] as usize;
        assert(self.offsets@[vertex as int] + self.counts@[vertex as int] <= self.data.len());
        let mut i: usize = 0;
        while i < size && self.data[begin + i] != triangle
            invariant
                i <= size,
                *self == before,
                list == self.list(vertex as int),
                begin + size <= self.data.len(),
                begin == self.offsets@[vertex as int],
                size == self.counts@[vertex as int],
                vertex < self.counts@.len(),
                self.counts@.len() == self.offsets@.len(),
                first_index(list, triangle, 0) == first_index(list, triangle, i as int),
            decreases size - i,
        {
            assert(list[i as int] == self.data@[begin + i]);
            i += 1;
        }
        if i < size {
            assert(list[i as int] == self.data@[begin + i]);
            let last: u32 = self.data[begin + size - 1];
            self.data[begin + i] = last;
            self.counts[vertex] = (size - 1) as u32;
            proof {
                let after = *self;
                assert(after.list(vertex as int) =~= without(list, triangle));
                assert forall|v: int| 0 <= v < before.counts@.len() && v != vertex implies
                    #[trigger] after.list(v) =~= before.list(v) by {
                    assert(before.offsets@[v] + before.counts@[v] <= before.data@.len());
                    if v < vertex {
                        assert(before.offsets@[v] + before.counts@[v]
                            <= before.offsets@[vertex as int]);
                    } else {
                        assert(before.offsets@[vertex as int] + before.counts@[vertex as int]
                            <= before.offsets@[v]);
                    }
                }
            }
        }
        assert(self.lists() =~= before.lists().update(
            vertex as int,
            without(list, triangle),
        ));
    }
}

} // verus!
