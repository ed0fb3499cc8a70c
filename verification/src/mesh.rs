//! The mathematical model of an indexed triangle mesh and of a reordering of its triangles.
//!
//! An index buffer is a sequence of vertex numbers, three to a triangle; triangle `t` has the
//! corners `3 * t`, `3 * t + 1` and `3 * t + 2`.

use vstd::prelude::*;
use vstd::set_lib::*;

verus! {

/// The buffer holds whole triangles over the vertices below `vertex_count`.
pub open spec fn is_mesh(indices: Seq<u32>, vertex_count: int) -> bool {
    &&& indices.len() % 3 == 0
    &&& forall|i: int| 0 <= i < indices.len() ==> #[trigger] indices[i] < vertex_count
}

/// Number of triangles.
pub open spec fn face_count(indices: Seq<u32>) -> nat {
    indices.len() / 3
}

/// The corners of triangle `t`.
pub open spec fn triangle(indices: Seq<u32>, t: int) -> Seq<u32> {
    indices.subrange(3 * t, 3 * t + 3)
}

/// The triangles of the mesh, in the order of the buffer.
pub open spec fn triangles(indices: Seq<u32>) -> Seq<Seq<u32>> {
    Seq::new(face_count(indices), |t: int| triangle(indices, t))
}

/// The buffer that holds the triangles numbered by `order`, one after the other.
pub open spec fn reordered(indices: Seq<u32>, order: Seq<u32>) -> Seq<u32> {
    Seq::new(3 * order.len(), |i: int| indices[3 * order[i / 3] + i % 3])
}

/// `order` lists each of the numbers below `n` exactly once.
pub open spec fn is_permutation(order: Seq<u32>, n: nat) -> bool {
    &&& order.len() == n
    &&& order.no_duplicates()
    &&& forall|i: int| 0 <= i < order.len() ==> #[trigger] order[i] < n
}

/// `after` holds every triangle, with its corners in the same order, exactly as often as
/// `before` does.
pub open spec fn is_rearrangement(after: Seq<u32>, before: Seq<u32>) -> bool {
    &&& after.len() == before.len()
    &&& triangles(after).to_multiset() == triangles(before).to_multiset()
}

/// The triangles can be written in another order to a buffer of `room` elements: there are
/// none (nor are any written where there are no vertices), or they are a mesh small enough for
/// 32-bit counts, and there is room.
pub open spec fn is_reorderable(indices: Seq<u32>, vertex_count: int, room: int) -> bool {
    &&& indices.len() % 3 == 0
    &&& indices.len() > 0 && vertex_count > 0 ==> {
        &&& is_mesh(indices, vertex_count)
        &&& indices.len() <= u32::MAX
        &&& indices.len() <= room
    }
}

/// `buffer` with its front overwritten by `front`.
pub open spec fn overwritten(buffer: Seq<u32>, front: Seq<u32>) -> Seq<u32> {
    front + buffer.skip(front.len() as int)
}

/// For each of the triangles below `n`, whether `order` holds it.
pub open spec fn emitted_flags(order: Seq<u32>, n: nat) -> Seq<bool> {
    Seq::new(n, |t: int| order.contains(t as u32))
}

/// The corners among the first `n` at which vertex `v` stands and whose triangle is not in
/// `order`.
pub open spec fn corners_waiting(indices: Seq<u32>, order: Seq<u32>, v: int, n: int) -> Set<int> {
    set_int_range(0, n).filter(|i: int| indices[i] == v && !order.contains((i / 3) as u32))
}

/// How many corners at vertex `v` belong to triangles that are not in `order`.
pub open spec fn corners_left(indices: Seq<u32>, order: Seq<u32>, v: int) -> nat {
    corners_waiting(indices, order, v, indices.len() as int).len()
}

/// The buffer with every vertex `v` renumbered to `f(v)`.
pub open spec fn renumbered(indices: Seq<u32>, f: spec_fn(u32) -> u32) -> Seq<u32> {
    indices.map_values(f)
}

/// `f` gives different vertices of the buffer different numbers.
pub open spec fn keeps_apart(indices: Seq<u32>, f: spec_fn(u32) -> u32) -> bool {
    forall|u: u32, v: u32|
        indices.contains(u) && indices.contains(v) && #[trigger] f(u) == #[trigger] f(v) ==> u == v
}

/// `f` is strictly increasing on the vertices of the buffer.
pub open spec fn keeps_order(indices: Seq<u32>, f: spec_fn(u32) -> u32) -> bool {
    forall|u: u32, v: u32|
        indices.contains(u) && indices.contains(v) && u < v ==> #[trigger] f(u) < #[trigger] f(v)
}

proof fn lemma_distinct_below(order: Seq<u32>, n: nat)
    requires
        order.no_duplicates(),
        forall|i: int| 0 <= i < order.len() ==> #[trigger] order[i] < n,
    ensures
        order.len() <= n,
        order.len() == n ==> forall|t: u32| t < n ==> #[trigger] order.contains(t),
{
    let ints = order.map_values(|t: u32| t as int);
    let set = ints.to_set();
    assert(ints.no_duplicates());
    ints.unique_seq_to_set();
    lemma_int_range(0, n as int);
    let range = set_int_range(0, n as int);
    assert(set.subset_of(range));
    lemma_len_subset(set, range);
    if order.len() == n {
        lemma_subset_equality(set, range);
        assert forall|t: u32| t < n implies #[trigger] order.contains(t) by {
            assert(set.contains(t as int));
            let i = choose|i: int| 0 <= i < ints.len() && ints[i] == t as int;
            assert(order[i] == t);
        }
    }
}

/// Distinct numbers below `n` that leave out some number below `n` are fewer than `n`.
pub proof fn lemma_missing_one(order: Seq<u32>, n: nat, t: u32)
    requires
        order.no_duplicates(),
        forall|i: int| 0 <= i < order.len() ==> #[trigger] order[i] < n,
        t < n,
        !order.contains(t),
    ensures
        order.len() < n,
{
    lemma_distinct_below(order, n);
}

/// Distinct numbers below `n` that leave out none are a permutation.
pub proof fn lemma_missing_none(order: Seq<u32>, n: nat)
    requires
        n <= u32::MAX,
        order.no_duplicates(),
        forall|i: int| 0 <= i < order.len() ==> #[trigger] order[i] < n,
        forall|t: u32| t < n ==> #[trigger] order.contains(t),
    ensures
        is_permutation(order, n),
{
    lemma_distinct_below(order, n);
    let ints = order.map_values(|t: u32| t as int);
    let set = ints.to_set();
    assert(ints.no_duplicates());
    ints.unique_seq_to_set();
    lemma_int_range(0, n as int);
    let range = set_int_range(0, n as int);
    assert forall|t: int| range.contains(t) implies #[trigger] set.contains(t) by {
        assert(order.contains(t as u32));
        let i = choose|i: int| 0 <= i < order.len() && order[i] == t as u32;
        assert(ints[i] == t);
    }
    lemma_len_subset(range, set);
}

/// A permutation of the triangles, seen as the sequence of the triangles it names, is a
/// rearrangement of the triangles.
proof fn lemma_permuted_multiset<A>(order: Seq<u32>, items: Seq<A>)
    requires
        is_permutation(order, items.len()),
    ensures
        order.map_values(|t: u32| items[t as int]).to_multiset() == items.to_multiset(),
    decreases items.len(),
{
    let f = |t: u32| items[t as int];
    let mapped = order.map_values(f);
    if items.len() == 0 {
        assert(mapped =~= items);
    } else {
        lemma_distinct_below(order, 0x1_0000_0000);
        let last = (items.len() - 1) as u32;
        lemma_distinct_below(order, items.len());
        assert(order.contains(last));
        let i = choose|i: int| 0 <= i < order.len() && order[i] == last;
        let rest = order.remove(i);
        let fewer = items.drop_last();
        assert forall|a: int, b: int|
            0 <= a < rest.len() && 0 <= b < rest.len() && a != b implies rest[a] != rest[b] by {
            let a0 = if a < i { a } else { a + 1 };
            let b0 = if b < i { b } else { b + 1 };
            assert(rest[a] == order[a0] && rest[b] == order[b0]);
        }
        assert forall|a: int| 0 <= a < rest.len() implies #[trigger] rest[a] < fewer.len() by {
            let a0 = if a < i { a } else { a + 1 };
            assert(rest[a] == order[a0]);
            assert(order[a0] < items.len());
            assert(order[a0] != order[i]);
        }
        lemma_permuted_multiset(rest, fewer);
        let fewer_mapped = rest.map_values(|t: u32| fewer[t as int]);
        assert(fewer_mapped =~= mapped.remove(i));
        mapped.to_multiset_ensures();
        fewer.to_multiset_ensures();
        assert(items =~= fewer.push(items.last()));
        assert(mapped[i] == items.last());
        assert(mapped.contains(items.last()));
        assert(mapped.to_multiset() =~= mapped.to_multiset().remove(items.last()).insert(
            items.last(),
        ));
    }
}

/// Reordering by a permutation keeps the triangles: triangle `i` of the new buffer is triangle
/// `order[i]` with its corners in the same order, and the new buffer holds every triangle
/// exactly as often as the old one does.
pub proof fn lemma_reordered_keeps_triangles(indices: Seq<u32>, order: Seq<u32>)
    requires
        indices.len() % 3 == 0,
        is_permutation(order, face_count(indices)),
    ensures
        forall|i: int|
            0 <= i < order.len() ==> #[trigger] triangle(reordered(indices, order), i) == triangle(
                indices,
                order[i] as int,
            ),
        is_rearrangement(reordered(indices, order), indices),
{
    let after = reordered(indices, order);
    assert forall|i: int| 0 <= i < order.len() implies #[trigger] triangle(after, i) == triangle(
        indices,
        order[i] as int,
    ) by {
        assert(order[i] < face_count(indices));
        assert forall|k: int| 0 <= k < 3 implies #[trigger] triangle(after, i)[k] == triangle(
            indices,
            order[i] as int,
        )[k] by {
            assert((3 * i + k) / 3 == i && (3 * i + k) % 3 == k);
        }
        assert(triangle(after, i) =~= triangle(indices, order[i] as int));
    }
    let items = triangles(indices);
    assert(triangles(after) =~= order.map_values(|t: u32| items[t as int])) by {
        assert forall|i: int| 0 <= i < order.len() implies #[trigger] triangles(after)[i]
            == items[order[i] as int] by {
            assert(triangle(after, i) == triangle(indices, order[i] as int));
        }
    }
    lemma_permuted_multiset(order, items);
}

/// Reordering by a permutation keeps the set of vertices in use.
pub proof fn lemma_reordered_keeps_vertices(indices: Seq<u32>, order: Seq<u32>)
    requires
        indices.len() % 3 == 0,
        is_permutation(order, face_count(indices)),
    ensures
        reordered(indices, order).to_set() == indices.to_set(),
{
    let after = reordered(indices, order);
    lemma_distinct_below(order, face_count(indices));
    lemma_distinct_below(order, 0x1_0000_0000);
    assert forall|v: u32| after.contains(v) implies indices.contains(v) by {
        let i = choose|i: int| 0 <= i < after.len() && after[i] == v;
        assert(order[i / 3] < face_count(indices));
        assert(indices[3 * order[i / 3] + i % 3] == v);
    }
    assert forall|v: u32| indices.contains(v) implies after.contains(v) by {
        let i = choose|i: int| 0 <= i < indices.len() && indices[i] == v;
        assert(order.contains((i / 3) as u32));
        let j = choose|j: int| 0 <= j < order.len() && order[j] == (i / 3) as u32;
        assert(after[3 * j + i % 3] == v) by {
            assert((3 * j + i % 3) / 3 == j && (3 * j + i % 3) % 3 == i % 3);
        }
    }
    assert(after.to_set() =~= indices.to_set());
}

/// Reordering the triangles and renumbering the vertices can be done in either order.
pub proof fn lemma_reordered_renumbered(
    indices: Seq<u32>,
    order: Seq<u32>,
    f: spec_fn(u32) -> u32,
)
    requires
        indices.len() % 3 == 0,
        forall|i: int| 0 <= i < order.len() ==> #[trigger] order[i] < face_count(indices),
    ensures
        reordered(renumbered(indices, f), order) == renumbered(reordered(indices, order), f),
{
    let left = reordered(renumbered(indices, f), order);
    let right = renumbered(reordered(indices, order), f);
    assert forall|i: int| 0 <= i < left.len() implies #[trigger] left[i] == right[i] by {
        assert(order[i / 3] < face_count(indices));
    }
    assert(left =~= right);
}

/// Overwriting the front of a buffer leaves everything behind it.
pub proof fn lemma_overwritten(buffer: Seq<u32>, front: Seq<u32>)
    requires
        front.len() <= buffer.len(),
    ensures
        overwritten(buffer, front).len() == buffer.len(),
        forall|i: int| 0 <= i < front.len() ==> #[trigger] overwritten(buffer, front)[i] == front[i],
        forall|i: int|
            front.len() <= i < buffer.len() ==> #[trigger] overwritten(buffer, front)[i]
                == buffer[i],
{
}

/// A buffer to whose front the triangles were written in some order holds them all there.
pub proof fn lemma_overwritten_rearranges(before: Seq<u32>, indices: Seq<u32>, order: Seq<u32>)
    requires
        indices.len() % 3 == 0,
        indices.len() <= before.len(),
        is_permutation(order, face_count(indices)),
    ensures
        is_rearrangement(
            overwritten(before, reordered(indices, order)).take(indices.len() as int),
            indices,
        ),
{
    lemma_reordered_keeps_triangles(indices, order);
    assert(overwritten(before, reordered(indices, order)).take(indices.len() as int)
        =~= reordered(indices, order));
}

/// Writing triangle `t` behind those of `order`.
pub proof fn lemma_overwritten_push(
    dest0: Seq<u32>,
    dest1: Seq<u32>,
    before: Seq<u32>,
    indices: Seq<u32>,
    order: Seq<u32>,
    t: u32,
)
    requires
        dest0 == overwritten(before, reordered(indices, order)),
        3 * order.len() + 3 <= before.len(),
        3 * t + 3 <= indices.len(),
        dest1 == dest0.update(3 * order.len() as int, indices[3 * t as int]).update(
            3 * order.len() as int + 1,
            indices[3 * t + 1],
        ).update(3 * order.len() as int + 2, indices[3 * t + 2]),
    ensures
        dest1 == overwritten(before, reordered(indices, order.push(t))),
{
    let m = order.len() as int;
    let expected = overwritten(before, reordered(indices, order.push(t)));
    assert forall|i: int| 0 <= i < dest1.len() implies #[trigger] dest1[i] == expected[i] by {
        if i < 3 * m {
            assert(i / 3 < m);
            assert(dest0[i] == reordered(indices, order)[i]);
        } else if i < 3 * m + 3 {
            assert(i / 3 == m && i % 3 == i - 3 * m);
        } else {
            assert(dest0[i] == before[i]);
        }
    }
    assert(dest1 =~= expected);
}

/// Emitting triangle `t` sets its flag.
pub proof fn lemma_flags_push(order: Seq<u32>, t: u32, n: nat)
    requires
        t < n <= u32::MAX,
    ensures
        emitted_flags(order.push(t), n) == emitted_flags(order, n).update(t as int, true),
{
    assert(order.push(t)[order.len() as int] == t);
    assert forall|s: u32| order.contains(s) implies order.push(t).contains(s) by {
        let i = choose|i: int| 0 <= i < order.len() && order[i] == s;
        assert(order.push(t)[i] == s);
    }
    assert(emitted_flags(order.push(t), n) =~= emitted_flags(order, n).update(t as int, true));
}

} // verus!
