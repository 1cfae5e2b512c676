//! What holds of every well-formed mesh, and of the conversions taken
//! together.

use vstd::prelude::*;
use vstd::set_lib::{lemma_int_range, set_int_range};
use super::builders::{connects, flattens, laid_out};
use super::collapse::{collapsed, doomed, next};
use super::connected_mesh::ConnectedMesh;
use super::node::Node;
use super::shared_mesh::{corner, SharedMesh};
use super::topology::{face_total, is_face_start, 
    is_ring, lemma_linked_node, lemma_linked_ring, lemma_rotate_ring, live, succ,
};
use super::weld::{
    face_corners, first_seen, key_normal, key_position, keys_of, lemma_first_seen, lemma_key_parts,
};
use crate::base::u32vec3::U32Vec3;

verus! {

/// The node reached from `i` by `k` steps along the `sibling` links.
pub open spec fn sibling_walk(nodes: Seq<Node>, i: int, k: nat) -> int
    decreases k,
{
    if k == 0 {
        i
    } else {
        nodes[sibling_walk(nodes, i, (k - 1) as nat)].sibling as int
    }
}

/// The corners of a triangle form a cycle of three: from every live node of
/// a well-formed mesh, three steps along the `relative` links lead through
/// two other live nodes back to the node.
pub proof fn lemma_corner_cycle<V>(mesh: &ConnectedMesh<V>, i: int)
    requires
        mesh.wf(),
        live(mesh.spec_nodes(), i),
    ensures
        ({
            let nodes = mesh.spec_nodes();
            let a = next(nodes, i);
            let b = next(nodes, a);
            &&& live(nodes, a)
            &&& live(nodes, b)
            &&& next(nodes, b) == i
            &&& a != i
            &&& b != i
            &&& a != b
        }),
{
    let nodes = mesh.spec_nodes();
    let slots = mesh.spec_positions().len() as int;
    lemma_linked_node(
        nodes,
        mesh.spec_rings(),
        slots,
        mesh.normal_slots(),
        mesh.spec_face_count() as int,
        i,
    );
    lemma_linked_node(
        nodes,
        mesh.spec_rings(),
        slots,
        mesh.normal_slots(),
        mesh.spec_face_count() as int,
        next(nodes, i),
    );
}

/// The steps of a walk along a ring are the entries of the ring.
proof fn lemma_walk_ring(nodes: Seq<Node>, ring: Seq<u32>, p: int, k: nat)
    requires
        is_ring(nodes, ring, p),
        ring.len() > 0,
        k <= ring.len(),
    ensures
        sibling_walk(nodes, ring[0] as int, k) == (if k < ring.len() {
            ring[k as int] as int
        } else {
            ring[0] as int
        }),
    decreases k,
{
    if k > 0 {
        lemma_walk_ring(nodes, ring, p, (k - 1) as nat);
        assert(nodes[ring[k - 1] as int].sibling == ring[succ(k - 1, ring.len() as int)]);
    }
}

/// The corners of a vertex form one ring: from every live node of a
/// well-formed mesh, the `sibling` links lead back to the node, after as
/// many steps as the ring of the node has members; every node on the way is
/// live and sits at the same position; and every live node at that position
/// is on the way.
pub proof fn lemma_sibling_cycle<V>(mesh: &ConnectedMesh<V>, i: int)
    requires
        mesh.wf(),
        live(mesh.spec_nodes(), i),
    ensures
        ({
            let nodes = mesh.spec_nodes();
            let ring = mesh.ring_from(i as u32);
            &&& ring.len() > 0
            &&& sibling_walk(nodes, i, ring.len()) == i
            &&& forall|k: nat|
                k < ring.len() ==> {
                    &&& #[trigger] sibling_walk(nodes, i, k) == ring[k as int]
                    &&& live(nodes, sibling_walk(nodes, i, k))
                    &&& nodes[sibling_walk(nodes, i, k)].position == nodes[i].position
                }
            &&& forall|x: int|
                live(nodes, x) && nodes[x].position == nodes[i].position ==> ring.contains(x as u32)
        }),
{
    let nodes = mesh.spec_nodes();
    let rings = mesh.spec_rings();
    let slots = mesh.spec_positions().len() as int;
    let normal_slots = mesh.normal_slots();
    let faces = mesh.spec_face_count() as int;
    lemma_linked_node(nodes, rings, slots, normal_slots, faces, i);
    let p = nodes[i].position as int;
    lemma_linked_ring(nodes, rings, slots, normal_slots, faces, p);
    let whole = rings[p];
    assert(whole.contains(i as u32));
    let ring = mesh.ring_from(i as u32);
    lemma_rotate_ring(nodes, whole, p, whole.index_of(i as u32));
    lemma_walk_ring(nodes, ring, p, ring.len());
    assert forall|k: nat| k < ring.len() implies {
        &&& #[trigger] sibling_walk(nodes, i, k) == ring[k as int]
        &&& live(nodes, sibling_walk(nodes, i, k))
        &&& nodes[sibling_walk(nodes, i, k)].position == nodes[i].position
    } by {
        lemma_walk_ring(nodes, ring, p, k);
        assert(ring.contains(ring[k as int]));
        assert(whole.contains(ring[k as int]));
        let m = whole.index_of(ring[k as int]);
        assert(live(nodes, whole[m] as int));
        assert(nodes[ring[k as int] as int].position == p);
    }
    assert forall|x: int| live(nodes, x) && nodes[x].position == nodes[i].position implies ring.contains(
        x as u32,
    ) by {
        lemma_linked_node(nodes, rings, slots, normal_slots, faces, x);
        assert(whole.contains(x as u32));
    }
}

/// The number of live triangles with their lowest-numbered corner below `n`
/// that have one corner at `pa`, one at `pb`, and the third elsewhere.
pub open spec fn spanning_total(nodes: Seq<Node>, pa: u32, pb: u32, n: int) -> nat
    decreases n,
{
    if n <= 0 {
        0
    } else {
        let rest = spanning_total(nodes, pa, pb, n - 1);
        if is_face_start(nodes, n - 1) && doomed(nodes, n - 1, pa, pb) {
            rest + 1
        } else {
            rest
        }
    }
}

/// The face count never goes up: the collapse of the edge between `pa` and
/// `pb` takes from the number of triangles the number of those that have
/// one corner at `pa`, one at `pb`, and the third elsewhere.
pub proof fn lemma_collapse_face_count(before: Seq<Node>, after: Seq<Node>, pa: u32, pb: u32, n: int)
    requires
        collapsed(before, after, pa, pb),
        0 <= n <= before.len(),
    ensures
        face_total(after, n) + spanning_total(before, pa, pb, n) == face_total(before, n),
        face_total(after, n) <= face_total(before, n),
    decreases n,
{
    if n > 0 {
        lemma_collapse_face_count(before, after, pa, pb, n - 1);
        let i = n - 1;
        assert(after[i].relative == before[i].relative);
        assert(after[i].is_removed == (before[i].is_removed || doomed(before, i, pa, pb)));
        if before[i].relative < before.len() {
            assert(after[before[i].relative as int].relative
                == before[before[i].relative as int].relative);
        }
    }
}

/// Vertex `v` is a corner of one of the triangles.
pub open spec fn used(triangles: Seq<U32Vec3>, v: int) -> bool {
    exists|j: int| 0 <= j < 3 * triangles.len() && #[trigger] corner(triangles, j) == v
}

/// The key of a vertex whose position and normal have the same index.
pub open spec fn own_key(v: u32) -> u64 {
    (v as u64 * 0x1_0000_0000 + v as u64) as u64
}

/// In a mesh that has just been built, the scan meets the corners in their
/// order.
proof fn lemma_corners_in_order(nodes: Seq<Node>, triangles: Seq<U32Vec3>, count: int, t: int)
    requires
        laid_out(nodes, triangles, count),
        0 <= t <= count,
    ensures
        face_corners(nodes, 3 * t) == Seq::new((3 * t) as nat, |j: int| j),
    decreases t,
{
    if t > 0 {
        lemma_corners_in_order(nodes, triangles, count, t - 1);
        let b = 3 * (t - 1);
        assert(nodes[b].relative == b + 1);
        assert(nodes[b + 1].relative == b + 2);
        assert(nodes[b + 2].relative == b);
        assert(face_corners(nodes, b + 1) == face_corners(nodes, b) + seq![b, b + 1, b + 2]);
        assert(face_corners(nodes, b + 2) == face_corners(nodes, b + 1));
        assert(face_corners(nodes, b + 3) == face_corners(nodes, b + 2));
        assert(face_corners(nodes, b) + seq![b, b + 1, b + 2] =~= Seq::new(
            (3 * t) as nat,
            |j: int| j,
        ));
    }
}

/// `back` is `flat` with its vertices renumbered by `relabel`: the corners
/// of the triangles carry the new numbers of the vertices they carried,
/// distinct vertices that are in use have distinct new numbers, and every
/// vertex in use has kept its position and its normal.
pub open spec fn relabels<V>(flat: &SharedMesh<V>, back: &SharedMesh<V>, relabel: Seq<int>) -> bool {
    let corners = 3 * flat.triangles@.len();
    &&& relabel.len() == flat.positions@.len()
    &&& forall|j: int|
        0 <= j < corners ==> #[trigger] corner(back.triangles@, j) == relabel[corner(
            flat.triangles@,
            j,
        ) as int]
    &&& forall|j: int, k: int|
        0 <= j < corners && 0 <= k < corners && corner(flat.triangles@, j) != corner(
            flat.triangles@,
            k,
        ) ==> #[trigger] relabel[corner(flat.triangles@, j) as int] != #[trigger] relabel[corner(
            flat.triangles@,
            k,
        ) as int]
    &&& forall|j: int|
        0 <= j < corners ==> {
            let v = #[trigger] corner(flat.triangles@, j) as int;
            &&& 0 <= relabel[v] < back.positions@.len()
            &&& back.positions@[relabel[v]] == flat.positions@[v]
        }
    &&& match flat.normal_seq() {
        Some(normals) => {
            &&& back.normal_seq() matches Some(out)
            &&& out.len() == back.positions@.len()
            &&& forall|j: int|
                0 <= j < corners ==> {
                    let v = #[trigger] corner(flat.triangles@, j) as int;
                    out[relabel[v]] == normals[v]
                }
        },
        None => back.normal_seq() is None,
    }
}

/// The round trip: a flat mesh that is turned into a connected mesh and
/// back comes out with the same number of triangles and, up to a
/// renumbering of its vertices, the same triangles with the same
/// attributes at their corners. The renumbering gives distinct vertices
/// distinct numbers. Where every vertex of the mesh is used by a triangle,
/// the number of vertices is the same, too.
pub proof fn lemma_round_trip<V>(flat: &SharedMesh<V>, mesh: &ConnectedMesh<V>, back: &SharedMesh<V>)
    requires
        flat.wf(),
        connects(flat, mesh),
        flattens(mesh, back),
    ensures
        back.triangles@.len() == flat.triangles@.len(),
        exists|relabel: Seq<int>| #[trigger] relabels(flat, back, relabel),
        (forall|v: int| 0 <= v < flat.positions@.len() ==> #[trigger] used(flat.triangles@, v))
            ==> back.positions@.len() == flat.positions@.len(),
{
    let nodes = mesh.spec_nodes();
    let n = flat.triangles@.len() as int;
    let tri = flat.triangles@;
    lemma_corners_in_order(nodes, tri, n, n);
    let corners = face_corners(nodes, nodes.len() as int);
    let keys = keys_of(nodes, corners);
    let verts = first_seen(keys);
    lemma_first_seen(keys);
    assert forall|j: int| 0 <= j < 3 * n implies #[trigger] keys[j] == own_key(corner(tri, j)) by {
        assert(corners[j] == j);
        assert(nodes[j].position == corner(tri, j));
    }
    let relabel = Seq::new(flat.positions@.len(), |v: int| verts.index_of(own_key(v as u32)));
    assert forall|j: int| 0 <= j < 3 * n implies 0 <= #[trigger] relabel[corner(tri, j) as int]
        < verts.len() && verts[relabel[corner(tri, j) as int]] == own_key(corner(tri, j)) by {
        assert(keys[j] == own_key(corner(tri, j)));
        assert(keys.contains(own_key(corner(tri, j))));
        assert(verts.contains(own_key(corner(tri, j))));
    }
    assert forall|j: int| 0 <= j < 3 * n implies #[trigger] corner(back.triangles@, j)
        == relabel[corner(tri, j) as int] by {
        assert(verts[corner(back.triangles@, j) as int] == keys[j]);
        assert(verts[relabel[corner(tri, j) as int]] == own_key(corner(tri, j)));
    }
    assert forall|j: int, k: int|
        0 <= j < 3 * n && 0 <= k < 3 * n && corner(tri, j) != corner(tri, k) implies #[trigger] relabel[corner(
        tri,
        j,
    ) as int] != #[trigger] relabel[corner(tri, k) as int] by {
        lemma_own_key(corner(tri, j));
        lemma_own_key(corner(tri, k));
        assert(verts[relabel[corner(tri, j) as int]] == own_key(corner(tri, j)));
        assert(verts[relabel[corner(tri, k) as int]] == own_key(corner(tri, k)));
    }
    assert forall|j: int| 0 <= j < 3 * n implies 0 <= relabel[#[trigger] corner(tri, j) as int]
        < back.positions@.len() && back.positions@[relabel[corner(tri, j) as int]]
        == flat.positions@[corner(tri, j) as int] by {
        lemma_own_key(corner(tri, j));
        assert(verts[relabel[corner(tri, j) as int]] == own_key(corner(tri, j)));
    }
    if let Some(normals) = flat.normal_seq() {
        let out = back.normal_seq()->0;
        assert forall|j: int| 0 <= j < 3 * n implies out[relabel[#[trigger] corner(tri, j) as int]]
            == normals[corner(tri, j) as int] by {
            lemma_own_key(corner(tri, j));
            assert(verts[relabel[corner(tri, j) as int]] == own_key(corner(tri, j)));
        }
    }
    assert(relabels(flat, back, relabel));
    if forall|v: int| 0 <= v < flat.positions@.len() ==> #[trigger] used(tri, v) {
        lemma_all_used(flat, verts, keys);
    }
}

/// The position and the normal of a vertex's own key are the vertex.
proof fn lemma_own_key(v: u32)
    ensures
        key_position(own_key(v)) == v,
        key_normal(own_key(v)) == v,
{
    lemma_key_parts(Node { position: v, normal: v, sibling: 0, relative: 0, is_removed: false });
}

/// Where the keys are the own keys of the corners of a flat mesh in which
/// every vertex is used, there are as many distinct keys as vertices.
proof fn lemma_all_used<V>(flat: &SharedMesh<V>, verts: Seq<u64>, keys: Seq<u64>)
    requires
        flat.wf(),
        keys.len() == 3 * flat.triangles@.len(),
        forall|j: int|
            0 <= j < 3 * flat.triangles@.len() ==> #[trigger] keys[j] == own_key(
                corner(flat.triangles@, j),
            ),
        verts.no_duplicates(),
        forall|k: u64| verts.contains(k) <==> keys.contains(k),
        forall|v: int| 0 <= v < flat.positions@.len() ==> #[trigger] used(flat.triangles@, v),
    ensures
        verts.len() == flat.positions@.len(),
{
    let tri = flat.triangles@;
    let count = flat.positions@.len() as int;
    let places = Seq::new(verts.len(), |m: int| key_position(verts[m]));
    assert forall|m: int| 0 <= m < verts.len() implies 0 <= #[trigger] places[m] < count && verts[m]
        == own_key(places[m] as u32) by {
        assert(verts.contains(verts[m]));
        assert(keys.contains(verts[m]));
        let j = keys.index_of(verts[m]);
        assert(keys[j] == own_key(corner(tri, j)));
        lemma_own_key(corner(tri, j));
    }
    assert(places.no_duplicates()) by {
        assert forall|a: int, b: int|
            0 <= a < places.len() && 0 <= b < places.len() && a != b implies places[a]
            != places[b] by {
            assert(verts[a] == own_key(places[a] as u32));
            assert(verts[b] == own_key(places[b] as u32));
        }
    }
    places.unique_seq_to_set();
    lemma_int_range(0, count);
    assert(places.to_set() =~= set_int_range(0, count)) by {
        assert forall|v: int| set_int_range(0, count).contains(v) implies places.to_set().contains(
            v,
        ) by {
            assert(used(tri, v));
            let j = choose|j: int| 0 <= j < 3 * tri.len() && #[trigger] corner(tri, j) == v;
            assert(keys[j] == own_key(corner(tri, j)));
            assert(keys.contains(own_key(v as u32)));
            assert(verts.contains(own_key(v as u32)));
            let m = verts.index_of(own_key(v as u32));
            lemma_own_key(v as u32);
            assert(places[m] == v);
        }
        assert forall|v: int| places.to_set().contains(v) implies set_int_range(0, count).contains(
            v,
        ) by {
            let m = places.index_of(v);
            assert(0 <= places[m] < count);
        }
    }
}

} // verus!
