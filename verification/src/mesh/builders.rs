//! The conversions between the flat mesh and the connected mesh.

use vstd::prelude::*;
use super::collapse::next;
use super::connected_mesh::{seq_of, ConnectedMesh};
use super::node::Node;
use super::shared_mesh::{corner, SharedMesh};
use super::topology::{clean, face_total, is_ring, lemma_linked_node, linked, live, succ};
use super::weld::{
    face_corners, first_seen, gathered, indexes, key_of, keys_of, lemma_face_corners_len,
    lemma_first_seen, lemma_key_parts, lemma_passed_bound, lemma_scan_face, lemma_see,
    lemma_weld_step, passed, see, welded,
};
use crate::base::u32vec3::U32Vec3;
use crate::utils::tables::{
    map_entries, map_get, map_insert, map_new, set_contains, set_insert, set_members, set_new,
    IndexMap,
};

verus! {

/// The corner that follows corner `j` in its triangle, when the corners of
/// each triangle are numbered consecutively.
pub open spec fn next_corner(j: int) -> int {
    if j % 3 == 2 {
        j - 2
    } else {
        j + 1
    }
}

/// `nodes` holds one live node for each corner of the first `count`
/// triangles, in order, with the triangle's vertex index as its position and
/// its normal, and linked to the next corner of its triangle.
pub open spec fn laid_out(nodes: Seq<Node>, triangles: Seq<U32Vec3>, count: int) -> bool {
    &&& nodes.len() == 3 * count
    &&& forall|j: int|
        0 <= j < 3 * count ==> {
            &&& (#[trigger] nodes[j]).position == corner(triangles, j)
            &&& nodes[j].normal == corner(triangles, j)
            &&& nodes[j].relative == next_corner(j)
            &&& !nodes[j].is_removed
        }
}

/// Each ring lists its members from the highest-numbered to the lowest.
pub open spec fn newest_first(rings: Seq<Seq<u32>>) -> bool {
    forall|p: int, k: int|
        0 <= p < rings.len() && 0 <= k < rings[p].len() - 1 ==> (#[trigger] rings[p][k]) > rings[p][k
            + 1]
}

/// The rings hold exactly the first `m` nodes, each in the ring of its
/// position, and the nodes from `m` on are still linked to themselves.
#[verifier::opaque]
pub open spec fn half_built(nodes: Seq<Node>, rings: Seq<Seq<u32>>, positions: int, m: int) -> bool {
    &&& rings.len() == positions
    &&& forall|p: int| 0 <= p < positions ==> is_ring(nodes, #[trigger] rings[p], p)
    &&& forall|p: int, k: int|
        0 <= p < positions && 0 <= k < rings[p].len() ==> (#[trigger] rings[p][k]) < m
    &&& forall|i: int|
        0 <= i < m ==> (#[trigger] nodes[i]).position < positions
            && rings[nodes[i].position as int].contains(i as u32)
    &&& forall|i: int| m <= i < nodes.len() ==> (#[trigger] nodes[i]).sibling == i
    &&& newest_first(rings)
}

/// The table holds, for each position with a ring, the last node of the
/// ring.
pub open spec fn holds_lasts(entries: Map<u64, u32>, rings: Seq<Seq<u32>>) -> bool {
    &&& forall|q: u64| #[trigger]
        entries.contains_key(q) <==> (q < rings.len() && rings[q as int].len() > 0)
    &&& forall|q: u64| #[trigger]
        entries.contains_key(q) ==> entries[q] == rings[q as int].last()
}

/// `after` is `before` but for `sibling` links.
pub open spec fn same_but_siblings(before: Seq<Node>, after: Seq<Node>) -> bool {
    &&& after.len() == before.len()
    &&& forall|j: int|
        0 <= j < before.len() ==> (#[trigger] after[j]) == (Node {
            sibling: after[j].sibling,
            ..before[j]
        })
}

/// The rings after node `i` has been put first in the ring of `p`.
pub open spec fn with_first(rings: Seq<Seq<u32>>, p: int, i: u32) -> Seq<Seq<u32>> {
    rings.update(p, seq![i] + rings[p])
}

/// The node array after node `i` has been put into the ring `ring` of its
/// position: behind the ring's last node, where it has one.
pub open spec fn linked_in(before: Seq<Node>, ring: Seq<u32>, i: u32) -> Seq<Node> {
    if ring.len() == 0 {
        before
    } else {
        before.update(
            i as int,
            Node { sibling: before[ring.last() as int].sibling, ..before[i as int] },
        ).update(ring.last() as int, Node { sibling: i, ..before[ring.last() as int] })
    }
}

/// Puts node `i` into the ring of its position, right behind the oldest
/// node of the ring.
fn link_corner(
    nodes: &mut Vec<Node>,
    first_at: &mut IndexMap,
    i: u32,
    Ghost(rings): Ghost<Seq<Seq<u32>>>,
    Ghost(positions): Ghost<int>,
)
    requires
        old(nodes)@.len() <= u32::MAX,
        i < old(nodes)@.len(),
        old(nodes)@[i as int].position < positions,
        half_built(old(nodes)@, rings, positions, i as int),
        holds_lasts(map_entries(*old(first_at)), rings),
    ensures
        same_but_siblings(old(nodes)@, final(nodes)@),
        half_built(
            final(nodes)@,
            with_first(rings, old(nodes)@[i as int].position as int, i),
            positions,
            i + 1,
        ),
        holds_lasts(
            map_entries(*final(first_at)),
            with_first(rings, old(nodes)@[i as int].position as int, i),
        ),
{
    let p = nodes[i as usize].position;
    let ghost before = nodes@;
    let ghost ring = rings[p as int];
    proof {
        lemma_oldest(before, rings, positions, i, map_entries(*first_at));
    }
    match map_get(first_at, p as u64) {
        None => {
            map_insert(first_at, p as u64, i);
        },
        Some(oldest) => {
            let after_oldest = nodes[oldest as usize].sibling;
            nodes[i as usize].sibling = after_oldest;
            nodes[oldest as usize].sibling = i;
        },
    }
    proof {
        assert(nodes@ == linked_in(before, ring, i));
        lemma_link_corner(before, rings, positions, i);
        lemma_lasts(map_entries(*old(first_at)), map_entries(*first_at), rings, p, i);
    }
}

/// What the table says of the position of node `i` before the node is put
/// into its ring.
proof fn lemma_oldest(
    before: Seq<Node>,
    rings: Seq<Seq<u32>>,
    positions: int,
    i: u32,
    entries: Map<u64, u32>,
)
    requires
        i < before.len(),
        before[i as int].position < positions,
        half_built(before, rings, positions, i as int),
        holds_lasts(entries, rings),
    ensures
        ({
            let p = before[i as int].position;
            let ring = rings[p as int];
            &&& rings.len() == positions
            &&& entries.contains_key(p as u64) <==> ring.len() > 0
            &&& ring.len() > 0 ==> entries[p as u64] == ring.last() && ring.last() < i
        }),
{
    reveal(half_built);
    let p = before[i as int].position;
    let ring = rings[p as int];
    assert(entries.contains_key(p as u64) <==> (p as u64) < rings.len() && rings[p as u64 as int].len()
        > 0);
    if ring.len() > 0 {
        assert(ring[ring.len() - 1] < i);
    }
}

/// The table after the entry for `p` has been made where it had none.
proof fn lemma_lasts(e0: Map<u64, u32>, e1: Map<u64, u32>, rings: Seq<Seq<u32>>, p: u32, i: u32)
    requires
        holds_lasts(e0, rings),
        p < rings.len(),
        e1 == if rings[p as int].len() == 0 {
            e0.insert(p as u64, i)
        } else {
            e0
        },
    ensures
        holds_lasts(e1, with_first(rings, p as int, i)),
{
    let rings2 = with_first(rings, p as int, i);
    let ring = rings[p as int];
    assert forall|q: u64| #[trigger] e1.contains_key(q) <==> (q < rings2.len() && rings2[q as int].len()
        > 0) by {
        assert(e0.contains_key(q) <==> (q < rings.len() && rings[q as int].len() > 0));
    }
    assert forall|q: u64| #[trigger] e1.contains_key(q) implies e1[q] == rings2[q as int].last() by {
        if q == p {
            if ring.len() > 0 {
                assert(e0.contains_key(q));
                assert((seq![i] + ring).last() == ring.last());
            }
        } else {
            assert(e0.contains_key(q));
        }
    }
}

/// A ring with a new node put in behind its last node is a ring, with the
/// new node as its first entry.
proof fn lemma_ring_prepend(before: Seq<Node>, ring: Seq<u32>, p: int, i: u32)
    requires
        is_ring(before, ring, p),
        i < before.len(),
        before[i as int].position == p,
        before[i as int].sibling == i,
        forall|k: int| 0 <= k < ring.len() ==> (#[trigger] ring[k]) < i,
    ensures
        is_ring(linked_in(before, ring, i), seq![i] + ring, p),
{
    let after = linked_in(before, ring, i);
    let ring2 = seq![i] + ring;
    let len = ring.len() as int;
    assert forall|k: int| 0 <= k < len implies #[trigger] ring2[k + 1] == ring[k] by {}
    assert(ring2[0] == i);
    if len > 0 {
        assert(ring[len - 1] < i);
        assert(before[ring[len - 1] as int].sibling == ring[succ(len - 1, len)]);
    }
    assert forall|a: int, b: int| 0 <= a < ring2.len() && 0 <= b < ring2.len() && a != b implies ring2[a]
        != ring2[b] by {
        if a > 0 {
            assert(ring2[a] == ring[a - 1]);
        }
        if b > 0 {
            assert(ring2[b] == ring[b - 1]);
        }
    }
    assert forall|k: int| 0 <= k < ring2.len() implies (#[trigger] ring2[k]) < after.len() by {
        if k > 0 {
            assert(ring2[k] == ring[k - 1]);
        }
    }
    assert forall|k: int| 0 <= k < ring2.len() implies (#[trigger] after[ring2[k] as int]).position
        == p by {
        if k > 0 {
            assert(ring2[k] == ring[k - 1]);
            assert(before[ring[k - 1] as int].position == p);
        }
    }
    assert forall|k: int| 0 <= k < ring2.len() implies (#[trigger] after[ring2[k] as int]).sibling
        == ring2[succ(k, ring2.len() as int)] by {
        if k == 0 {
            if len > 0 {
                assert(ring2[1] == ring[0]);
            }
        } else {
            assert(ring2[k] == ring[k - 1]);
            assert(ring[k - 1] < i);
            assert(before[ring[k - 1] as int].sibling == ring[succ(k - 1, len)]);
            if k < len {
                assert(ring[k - 1] != ring[len - 1]);
                assert(ring2[k + 1] == ring[k]);
            }
        }
    }
}

/// A ring at another position is not touched when node `i` is put into the
/// ring of its own.
proof fn lemma_ring_apart(before: Seq<Node>, ring: Seq<u32>, p: int, other: Seq<u32>, q: int, i: u32)
    requires
        is_ring(before, ring, p),
        is_ring(before, other, q),
        p != q,
        i < before.len(),
        forall|k: int| 0 <= k < other.len() ==> (#[trigger] other[k]) < i,
    ensures
        is_ring(linked_in(before, ring, i), other, q),
{
    let after = linked_in(before, ring, i);
    assert forall|k: int| 0 <= k < other.len() implies #[trigger] after[other[k] as int]
        == before[other[k] as int] by {
        assert(before[other[k] as int].position == q);
        if ring.len() > 0 {
            assert(before[ring[ring.len() - 1] as int].position == p);
        }
    }
}

/// What `link_corner` does to the node array keeps the rings right.
proof fn lemma_link_corner(before: Seq<Node>, rings: Seq<Seq<u32>>, positions: int, i: u32)
    requires
        before.len() <= u32::MAX,
        i < before.len(),
        before[i as int].position < positions,
        half_built(before, rings, positions, i as int),
    ensures
        same_but_siblings(before, linked_in(before, rings[before[i as int].position as int], i)),
        half_built(
            linked_in(before, rings[before[i as int].position as int], i),
            with_first(rings, before[i as int].position as int, i),
            positions,
            i + 1,
        ),
{
    reveal(half_built);
    let p = before[i as int].position as int;
    let ring = rings[p];
    let ring2 = seq![i] + ring;
    let rings2 = with_first(rings, p, i);
    let after = linked_in(before, ring, i);
    let len = ring.len() as int;
    assert(is_ring(before, ring, p));
    assert forall|k: int| 0 <= k < len implies #[trigger] ring2[k + 1] == ring[k] by {}
    assert(ring2[0] == i);
    assert forall|k: int| 0 <= k < ring.len() implies (#[trigger] ring[k]) < i by {
        assert(rings[p][k] < i);
    }
    lemma_ring_prepend(before, ring, p, i);
    assert forall|q: int| 0 <= q < positions implies is_ring(after, #[trigger] rings2[q], q) by {
        if q != p {
            assert(is_ring(before, rings[q], q));
            assert forall|k: int| 0 <= k < rings[q].len() implies (#[trigger] rings[q][k]) < i by {}
            lemma_ring_apart(before, ring, p, rings[q], q, i);
        }
    }
    assert forall|q: int, k: int| 0 <= q < positions && 0 <= k < rings2[q].len() implies (
    #[trigger] rings2[q][k]) < i + 1 by {
        if q == p {
            if k > 0 {
                assert(ring2[k] == ring[k - 1]);
                assert(rings[p][k - 1] < i);
            }
        } else {
            assert(rings[q][k] < i);
        }
    }
    assert forall|j: int| 0 <= j < i + 1 implies (#[trigger] after[j]).position < positions
        && rings2[after[j].position as int].contains(j as u32) by {
        if j == i {
            assert(ring2[0] == i);
        } else {
            assert(before[j].position < positions);
            let q = before[j].position as int;
            assert(rings[q].contains(j as u32));
            if q == p {
                let k = ring.index_of(j as u32);
                assert(ring2[k + 1] == j as u32);
            }
        }
    }
    assert forall|j: int| i + 1 <= j < after.len() implies (#[trigger] after[j]).sibling == j by {
        assert(before[j].sibling == j);
        if len > 0 {
            assert(ring[len - 1] < i);
        }
    }
    assert forall|q: int, k: int| 0 <= q < rings2.len() && 0 <= k < rings2[q].len() - 1 implies (
    #[trigger] rings2[q][k]) > rings2[q][k + 1] by {
        if q == p {
            if k == 0 {
                assert(ring2[1] == ring[0]);
                assert(rings[p][0] < i);
            } else {
                assert(ring2[k] == ring[k - 1]);
                assert(ring2[k + 1] == ring[k]);
                assert(rings[p][k - 1] > rings[p][k]);
            }
        } else {
            assert(rings[q][k] > rings[q][k + 1]);
        }
    }
}

/// In a node array that is laid out by triangles, the triangles are counted
/// by their first corners.
proof fn lemma_face_total_laid_out(nodes: Seq<Node>, triangles: Seq<U32Vec3>, count: int, t: int)
    requires
        laid_out(nodes, triangles, count),
        0 <= t <= count,
    ensures
        face_total(nodes, 3 * t) == t,
    decreases t,
{
    if t > 0 {
        lemma_face_total_laid_out(nodes, triangles, count, t - 1);
        let b = 3 * (t - 1);
        assert(nodes[b].relative == b + 1);
        assert(nodes[b + 1].relative == b + 2);
        assert(nodes[b + 2].relative == b);
        assert(face_total(nodes, b + 1) == face_total(nodes, b) + 1);
        assert(face_total(nodes, b + 2) == face_total(nodes, b + 1));
        assert(face_total(nodes, b + 3) == face_total(nodes, b + 2));
    }
}

/// A node array that is laid out by triangles, with every node in the ring
/// of its position, is a well-formed mesh.
proof fn lemma_built(
    nodes: Seq<Node>,
    rings: Seq<Seq<u32>>,
    triangles: Seq<U32Vec3>,
    positions: int,
    normals: Option<int>,
)
    requires
        3 * triangles.len() <= u32::MAX,
        laid_out(nodes, triangles, triangles.len() as int),
        half_built(nodes, rings, positions, nodes.len() as int),
        normals matches Some(n) ==> forall|j: int|
            0 <= j < 3 * triangles.len() ==> (#[trigger] corner(triangles, j)) < n,
    ensures
        linked(nodes, rings, positions, normals, triangles.len() as int),
        clean(nodes, rings),
{
    reveal(half_built);
    reveal(linked);
    lemma_face_total_laid_out(nodes, triangles, triangles.len() as int, triangles.len() as int);
    assert forall|i: int| #[trigger] live(nodes, i) implies super::topology::node_ok(
        nodes,
        i,
        positions,
        normals,
    ) by {
        let a = next_corner(i);
        let b = next_corner(a);
        assert(nodes[i].relative == a);
        assert(nodes[a].relative == b);
        assert(nodes[b].relative == i);
        assert(nodes[i].position < positions);
        assert(nodes[i].normal == corner(triangles, i));
    }
    assert forall|i: int| #[trigger] live(nodes, i) implies rings[nodes[i].position as int].contains(
        i as u32,
    ) by {
        assert(nodes[i].position < positions);
    }
}

/// A copy of `source`.
fn copy_all<V: Copy>(source: &Vec<V>) -> (out: Vec<V>)
    ensures
        out@ == source@,
{
    let mut out: Vec<V> = Vec::new();
    let mut k: usize = 0;
    while k < source.len()
        invariant
            k <= source@.len(),
            out@ == source@.take(k as int),
        decreases source@.len() - k,
    {
        out.push(source[k]);
        assert(source@.take(k as int).push(source@[k as int]) =~= source@.take(k + 1));
        k = k + 1;
    }
    assert(source@.take(source@.len() as int) =~= source@);
    out
}

/// `mesh` is the connected mesh of the flat mesh `flat`: it has the same
/// attribute arrays, one node for each corner of each triangle, in order,
/// and for each vertex index the ring of the corners that carry it, from the
/// newest to the oldest.
pub open spec fn connects<V>(flat: &SharedMesh<V>, mesh: &ConnectedMesh<V>) -> bool {
    &&& mesh.spec_positions() == flat.positions@
    &&& mesh.spec_normals() == flat.normal_seq()
    &&& mesh.spec_face_count() == flat.triangles@.len()
    &&& laid_out(mesh.spec_nodes(), flat.triangles@, flat.triangles@.len() as int)
    &&& newest_first(mesh.spec_rings())
    &&& mesh.spec_rings().len() == flat.positions@.len()
    &&& forall|p: int, x: u32|
        0 <= p < mesh.spec_rings().len() ==> (#[trigger] mesh.spec_rings()[p].contains(x) <==> (x
            < mesh.spec_nodes().len() && corner(flat.triangles@, x as int) == p))
}

/// `flat` is the flat mesh of the connected mesh `mesh`: the welding of its
/// live triangles, without groups and colors.
pub open spec fn flattens<V>(mesh: &ConnectedMesh<V>, flat: &SharedMesh<V>) -> bool {
    &&& flat.triangles@.len() == mesh.spec_face_count()
    &&& welded(
        mesh.spec_nodes(),
        mesh.spec_nodes().len() as int,
        mesh.spec_positions(),
        mesh.spec_normals(),
        flat.triangles@,
        flat.positions@,
        flat.normal_seq(),
    )
    &&& flat.groups@.len() == 0
    &&& flat.colors is None
}

impl<V: Copy> ConnectedMesh<V> {
    /// Builds the connected mesh of a flat mesh.
    ///
    /// The mesh gets one node for each corner of each triangle, in the order
    /// of the triangle list. The corners that share a vertex index form one
    /// ring, linked from the newest to the oldest. The attribute arrays are
    /// copied.
    pub fn from(shared_mesh: &SharedMesh<V>) -> (mesh: Self)
        requires
            shared_mesh.wf(),
        ensures
            mesh.wf(),
            connects(shared_mesh, &mesh),
    {
        let triangles = &shared_mesh.triangles;
        let count = triangles.len();
        let ghost positions = shared_mesh.positions@.len() as int;
        let mut nodes: Vec<Node> = Vec::new();
        let mut first_at = map_new();
        let ghost mut rings: Seq<Seq<u32>> = Seq::new(positions as nat, |p: int| Seq::<u32>::empty());
        proof {
            reveal(half_built);
        }
        let mut t: usize = 0;
        while t < count
            invariant
                t <= count,
                count == triangles@.len(),
                triangles@ == shared_mesh.triangles@,
                positions == shared_mesh.positions@.len(),
                shared_mesh.wf(),
                laid_out(nodes@, triangles@, t as int),
                half_built(nodes@, rings, positions, 3 * t),
                holds_lasts(map_entries(first_at), rings),
            decreases count - t,
        {
            let tri = triangles[t];
            let base: u32 = (3 * t) as u32;
            let ghost before = nodes@;
            proof {
                assert(corner(triangles@, 3 * t) == tri.0) by {
                    assert((3 * t) / 3 == t as int);
                }
                assert(corner(triangles@, 3 * t + 1) == tri.1) by {
                    assert((3 * t + 1) / 3 == t as int);
                }
                assert(corner(triangles@, 3 * t + 2) == tri.2) by {
                    assert((3 * t + 2) / 3 == t as int);
                }
            }
            nodes.push(
                Node {
                    position: tri.0,
                    normal: tri.0,
                    relative: base + 1,
                    sibling: base,
                    is_removed: false,
                },
            );
            nodes.push(
                Node {
                    position: tri.1,
                    normal: tri.1,
                    relative: base + 2,
                    sibling: base + 1,
                    is_removed: false,
                },
            );
            nodes.push(
                Node {
                    position: tri.2,
                    normal: tri.2,
                    relative: base,
                    sibling: base + 2,
                    is_removed: false,
                },
            );
            let ghost pushed = nodes@;
            proof {
                lemma_pushed(before, pushed, rings, triangles@, positions, t as int);
            }
            link_corner(&mut nodes, &mut first_at, base, Ghost(rings), Ghost(positions));
            proof {
                rings = with_first(rings, tri.0 as int, base);
            }
            link_corner(&mut nodes, &mut first_at, base + 1, Ghost(rings), Ghost(positions));
            proof {
                rings = with_first(rings, tri.1 as int, (base + 1) as u32);
            }
            link_corner(&mut nodes, &mut first_at, base + 2, Ghost(rings), Ghost(positions));
            proof {
                rings = with_first(rings, tri.2 as int, (base + 2) as u32);
                assert(laid_out(nodes@, triangles@, t + 1)) by {
                    assert forall|j: int| 0 <= j < 3 * (t + 1) implies {
                        &&& (#[trigger] nodes@[j]).position == corner(triangles@, j)
                        &&& nodes@[j].normal == corner(triangles@, j)
                        &&& nodes@[j].relative == next_corner(j)
                        &&& !nodes@[j].is_removed
                    } by {
                        assert(nodes@[j].position == pushed[j].position);
                    }
                }
            }
            t = t + 1;
        }
        let positions_copy = copy_all(&shared_mesh.positions);
        let normals_copy = match &shared_mesh.normals {
            Some(v) => Some(copy_all(v)),
            None => None,
        };
        proof {
            lemma_built(nodes@, rings, triangles@, positions, shared_mesh.normal_slots());
            lemma_ring_members(nodes@, rings, triangles@, positions);
        }
        ConnectedMesh::assemble(nodes, count as u32, positions_copy, normals_copy, Ghost(rings))
    }
}

/// After the three nodes of triangle `t` have been pushed, each linked to
/// itself, the array is laid out for `t + 1` triangles and the rings are as
/// they were.
proof fn lemma_pushed(
    before: Seq<Node>,
    pushed: Seq<Node>,
    rings: Seq<Seq<u32>>,
    triangles: Seq<U32Vec3>,
    positions: int,
    t: int,
)
    requires
        0 <= t < triangles.len(),
        3 * triangles.len() <= u32::MAX,
        laid_out(before, triangles, t),
        half_built(before, rings, positions, 3 * t),
        pushed.len() == 3 * t + 3,
        forall|j: int| 0 <= j < 3 * t ==> pushed[j] == before[j],
        forall|c: int|
            0 <= c < 3 ==> #[trigger] pushed[3 * t + c] == (Node {
                position: corner(triangles, 3 * t + c),
                normal: corner(triangles, 3 * t + c),
                relative: next_corner(3 * t + c) as u32,
                sibling: (3 * t + c) as u32,
                is_removed: false,
            }),
        forall|j: int| 0 <= j < 3 * triangles.len() ==> (#[trigger] corner(triangles, j)) < positions,
    ensures
        laid_out(pushed, triangles, t + 1),
        half_built(pushed, rings, positions, 3 * t),
        forall|c: int| 0 <= c < 3 ==> (#[trigger] pushed[3 * t + c]).position < positions,
{
    reveal(half_built);
    assert forall|j: int| 0 <= j < 3 * (t + 1) implies {
        &&& (#[trigger] pushed[j]).position == corner(triangles, j)
        &&& pushed[j].normal == corner(triangles, j)
        &&& pushed[j].relative == next_corner(j)
        &&& !pushed[j].is_removed
    } by {
        if j >= 3 * t {
            let c = j - 3 * t;
            assert(pushed[3 * t + c].position == corner(triangles, 3 * t + c));
        } else {
            assert(pushed[j] == before[j]);
        }
    }
    assert forall|p: int| 0 <= p < positions implies is_ring(pushed, #[trigger] rings[p], p) by {
        let r = rings[p];
        assert(is_ring(before, r, p));
        assert forall|k: int| 0 <= k < r.len() implies #[trigger] pushed[r[k] as int]
            == before[r[k] as int] by {}
    }
    assert forall|i: int| 0 <= i < 3 * t implies (#[trigger] pushed[i]).position < positions
        && rings[pushed[i].position as int].contains(i as u32) by {
        assert(pushed[i] == before[i]);
    }
    assert forall|i: int| 3 * t <= i < pushed.len() implies (#[trigger] pushed[i]).sibling == i by {
        let c = i - 3 * t;
        assert(pushed[3 * t + c].sibling == (3 * t + c) as u32);
    }
    assert forall|c: int| 0 <= c < 3 implies (#[trigger] pushed[3 * t + c]).position < positions by {
        assert(corner(triangles, 3 * t + c) < positions);
    }
}

/// The ring of a position holds exactly the corners that carry its index.
proof fn lemma_ring_members(
    nodes: Seq<Node>,
    rings: Seq<Seq<u32>>,
    triangles: Seq<U32Vec3>,
    positions: int,
)
    requires
        laid_out(nodes, triangles, triangles.len() as int),
        half_built(nodes, rings, positions, nodes.len() as int),
        nodes.len() <= u32::MAX,
    ensures
        forall|p: int, x: u32|
            0 <= p < rings.len() ==> (#[trigger] rings[p].contains(x) <==> (x < nodes.len() && corner(
                triangles,
                x as int,
            ) == p)),
{
    reveal(half_built);
    assert forall|p: int, x: u32| 0 <= p < rings.len() implies (#[trigger] rings[p].contains(x) <==> (
    x < nodes.len() && corner(triangles, x as int) == p)) by {
        if rings[p].contains(x) {
            let k = rings[p].index_of(x);
            assert(is_ring(nodes, rings[p], p));
            assert(nodes[rings[p][k] as int].position == p);
        }
        if x < nodes.len() && corner(triangles, x as int) == p {
            assert(nodes[x as int].position == p);
        }
    }
}

/// Looks up the vertex of a corner. A corner whose position and normal have
/// not been met before becomes a new vertex, at the end of the output
/// arrays.
fn weld_corner<V: Copy>(
    src_positions: &Vec<V>,
    src_normals: &Option<Vec<V>>,
    node: Node,
    weld: &mut IndexMap,
    positions: &mut Vec<V>,
    normals: &mut Option<Vec<V>>,
    Ghost(verts): Ghost<Seq<u64>>,
) -> (v: u32)
    requires
        indexes(map_entries(*old(weld)), verts),
        gathered(
            verts,
            src_positions@,
            seq_of(*src_normals),
            old(positions)@,
            seq_of(*old(normals)),
        ),
        verts.len() < u32::MAX,
        node.position < src_positions@.len(),
        seq_of(*src_normals) matches Some(ns) ==> node.normal < ns.len(),
    ensures
        indexes(map_entries(*final(weld)), see(verts, key_of(node))),
        gathered(
            see(verts, key_of(node)),
            src_positions@,
            seq_of(*src_normals),
            final(positions)@,
            seq_of(*final(normals)),
        ),
        v < see(verts, key_of(node)).len(),
        see(verts, key_of(node))[v as int] == key_of(node),
{
    proof {
        lemma_key_parts(node);
    }
    let key: u64 = (node.position as u64) * 0x1_0000_0000 + (node.normal as u64);
    match map_get(weld, key) {
        Some(v) => v,
        None => {
            let v = positions.len() as u32;
            proof {
                lemma_see(
                    map_entries(*weld),
                    verts,
                    key,
                    src_positions@,
                    seq_of(*src_normals),
                    positions@,
                    seq_of(*normals),
                );
            }
            map_insert(weld, key, v);
            positions.push(src_positions[node.position as usize]);
            match src_normals {
                Some(ns) => {
                    match normals {
                        Some(on) => {
                            on.push(ns[node.normal as usize]);
                        },
                        None => {},
                    }
                },
                None => {},
            }
            v
        },
    }
}

impl<V: Copy> SharedMesh<V> {
    /// Builds the flat mesh of a connected mesh.
    ///
    /// The triangles that have not been removed come out in the order of
    /// their lowest-numbered corners, each with the winding of its
    /// `relative` links. Corners with the same position and the same normal
    /// become one vertex; the vertices are numbered in the order in which
    /// the triangles first use them.
    pub fn from(connected_mesh: &ConnectedMesh<V>) -> (shared: Self)
        requires
            connected_mesh.wf(),
        ensures
            shared.wf(),
            flattens(connected_mesh, &shared),
    {
        let nodes = connected_mesh.nodes();
        let src_positions = connected_mesh.positions();
        let src_normals = connected_mesh.normals();
        let ghost rings = connected_mesh.spec_rings();
        let ghost slots = src_positions@.len() as int;
        let ghost normal_slots = connected_mesh.normal_slots();
        let ghost faces = connected_mesh.spec_face_count() as int;
        let mut weld = map_new();
        let mut browsed = set_new();
        let mut triangles: Vec<U32Vec3> = Vec::new();
        let mut positions: Vec<V> = Vec::new();
        let mut normals: Option<Vec<V>> = match src_normals {
            Some(_) => Some(Vec::new()),
            None => None,
        };
        let ghost mut verts: Seq<u64> = Seq::empty();
        proof {
            assert(passed(nodes@, 0) =~= Set::<int>::empty());
            assert(nodes@.len() <= u32::MAX) by {
                reveal(linked);
            }
        }
        let mut i: usize = 0;
        while i < nodes.len()
            invariant
                i <= nodes@.len(),
                nodes@.len() <= u32::MAX,
                linked(nodes@, rings, slots, normal_slots, faces),
                slots == src_positions@.len(),
                normal_slots == match seq_of(*src_normals) {
                    Some(ns) => Some(ns.len() as int),
                    None => None,
                },
                verts == first_seen(keys_of(nodes@, face_corners(nodes@, i as int))),
                indexes(map_entries(weld), verts),
                welded(
                    nodes@,
                    i as int,
                    src_positions@,
                    seq_of(*src_normals),
                    triangles@,
                    positions@,
                    seq_of(normals),
                ),
                forall|x: u32| set_members(browsed).contains(x) <==> passed(nodes@, i as int).contains(
                    x as int,
                ),
                passed(nodes@, i as int).finite(),
                passed(nodes@, i as int).len() == 3 * triangles@.len(),
            decreases nodes@.len() - i,
        {
            proof {
                lemma_scan_face(nodes@, rings, slots, normal_slots, faces, i as int);
                lemma_passed_bound(nodes@, i + 1);
            }
            let fresh = !nodes[i].is_removed && !set_contains(&browsed, i as u32);
            if fresh {
                let a = nodes[i];
                let b_index = a.relative;
                let b = nodes[b_index as usize];
                let c_index = b.relative;
                let c = nodes[c_index as usize];
                proof {
                    lemma_first_seen(keys_of(nodes@, face_corners(nodes@, i as int)));
                    lemma_face_corners_len(nodes@, i as int);
                    lemma_linked_node(nodes@, rings, slots, normal_slots, faces, i as int);
                    lemma_linked_node(nodes@, rings, slots, normal_slots, faces, b_index as int);
                    lemma_linked_node(nodes@, rings, slots, normal_slots, faces, c_index as int);
                    assert(passed(nodes@, i + 1).len() == 3 * triangles@.len() + 3);
                }
                let va = weld_corner(
                    src_positions,
                    src_normals,
                    a,
                    &mut weld,
                    &mut positions,
                    &mut normals,
                    Ghost(verts),
                );
                let ghost verts1 = see(verts, key_of(a));
                let vb = weld_corner(
                    src_positions,
                    src_normals,
                    b,
                    &mut weld,
                    &mut positions,
                    &mut normals,
                    Ghost(verts1),
                );
                let ghost verts2 = see(verts1, key_of(b));
                let vc = weld_corner(
                    src_positions,
                    src_normals,
                    c,
                    &mut weld,
                    &mut positions,
                    &mut normals,
                    Ghost(verts2),
                );
                proof {
                    lemma_weld_step(
                        nodes@,
                        i as int,
                        src_positions@,
                        seq_of(*src_normals),
                        triangles@,
                        positions@,
                        seq_of(normals),
                        va,
                        vb,
                        vc,
                    );
                    verts = see(verts2, key_of(c));
                }
                triangles.push(U32Vec3(va, vb, vc));
                set_insert(&mut browsed, i as u32);
                set_insert(&mut browsed, b_index);
                set_insert(&mut browsed, c_index);
            }
            i = i + 1;
        }
        proof {
            lemma_face_corners_len(nodes@, nodes@.len() as int);
            lemma_passed_bound(nodes@, nodes@.len() as int);
            assert(faces == face_total(nodes@, nodes@.len() as int)) by {
                reveal(linked);
            }
        }
        SharedMesh { groups: Vec::new(), triangles, positions, normals, colors: None }
    }
}

} // verus!
