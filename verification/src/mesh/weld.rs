//! The model of welding: how the corners of a connected mesh become the
//! vertices and triangles of a flat mesh.

use vstd::prelude::*;
use vstd::set_lib::{lemma_int_range, lemma_len_subset, set_int_range};
use super::collapse::{face_start_of, next};
use super::node::Node;
use super::shared_mesh::corner;
use super::topology::{face_total, is_face_start, lemma_linked_node, linked, live};
use crate::base::u32vec3::U32Vec3;

verus! {

/// The position and the normal of a corner in one number: two corners
/// become one vertex exactly if they have the same key.
pub open spec fn key_of(n: Node) -> u64 {
    (n.position as u64 * 0x1_0000_0000 + n.normal as u64) as u64
}

/// The position that a key stands for.
pub open spec fn key_position(k: u64) -> int {
    k as int / 0x1_0000_0000
}

/// The normal that a key stands for.
pub open spec fn key_normal(k: u64) -> int {
    k as int % 0x1_0000_0000
}

/// The corners of the live triangles whose lowest-numbered corner is below
/// `n`: triangle after triangle in the order of those corners, each triangle
/// from its lowest-numbered corner onwards.
pub open spec fn face_corners(nodes: Seq<Node>, n: int) -> Seq<int>
    decreases n,
{
    if n <= 0 {
        Seq::empty()
    } else {
        let rest = face_corners(nodes, n - 1);
        let i = n - 1;
        if live(nodes, i) && is_face_start(nodes, i) {
            rest + seq![i, next(nodes, i), next(nodes, next(nodes, i))]
        } else {
            rest
        }
    }
}

/// The keys of the given corners.
pub open spec fn keys_of(nodes: Seq<Node>, corners: Seq<int>) -> Seq<u64> {
    Seq::new(corners.len(), |j: int| key_of(nodes[corners[j]]))
}

/// The list `seen` with `k` added at its end, unless it holds `k` already.
pub open spec fn see(seen: Seq<u64>, k: u64) -> Seq<u64> {
    if seen.contains(k) {
        seen
    } else {
        seen.push(k)
    }
}

/// The distinct entries of `keys`, in the order in which they first occur.
pub open spec fn first_seen(keys: Seq<u64>) -> Seq<u64>
    decreases keys.len(),
{
    if keys.len() == 0 {
        Seq::empty()
    } else {
        see(first_seen(keys.drop_last()), keys.last())
    }
}

/// There are three corners for each triangle.
pub proof fn lemma_face_corners_len(nodes: Seq<Node>, n: int)
    ensures
        face_corners(nodes, n).len() == 3 * face_total(nodes, n),
    decreases n,
{
    if n > 0 {
        lemma_face_corners_len(nodes, n - 1);
    }
}

/// The first occurrences in a list with one more entry at its end.
pub proof fn lemma_first_seen_push(keys: Seq<u64>, k: u64)
    ensures
        first_seen(keys.push(k)) == see(first_seen(keys), k),
{
    assert(keys.push(k).drop_last() =~= keys);
}

/// The list of first occurrences has no repetition and holds exactly the
/// entries of the list it is taken from.
pub proof fn lemma_first_seen(keys: Seq<u64>)
    ensures
        first_seen(keys).no_duplicates(),
        first_seen(keys).len() <= keys.len(),
        forall|k: u64| first_seen(keys).contains(k) <==> keys.contains(k),
    decreases keys.len(),
{
    if keys.len() > 0 {
        let d = keys.drop_last();
        let last = keys.last();
        lemma_first_seen(d);
        let fd = first_seen(d);
        let f = first_seen(keys);
        assert forall|k: u64| f.contains(k) <==> keys.contains(k) by {
            if f.contains(k) {
                let j = f.index_of(k);
                if j < fd.len() {
                    assert(fd[j] == k);
                    assert(fd.contains(k));
                    assert(d.contains(k));
                    let m = d.index_of(k);
                    assert(keys[m] == k);
                } else {
                    assert(keys[keys.len() - 1] == k);
                }
            }
            if keys.contains(k) {
                let m = keys.index_of(k);
                if m < d.len() {
                    assert(d[m] == k);
                    assert(d.contains(k));
                    assert(fd.contains(k));
                    let j = fd.index_of(k);
                    assert(f[j] == k);
                } else {
                    if fd.contains(last) {
                    } else {
                        assert(f[f.len() - 1] == k);
                    }
                }
            }
        }
    }
}

/// The keys of a list of corners with three more corners at its end.
pub proof fn lemma_keys_three(nodes: Seq<Node>, corners: Seq<int>, a: int, b: int, c: int)
    ensures
        keys_of(nodes, corners + seq![a, b, c]) == keys_of(nodes, corners).push(key_of(nodes[a])).push(
            key_of(nodes[b]),
        ).push(key_of(nodes[c])),
{
    let left = keys_of(nodes, corners + seq![a, b, c]);
    let right = keys_of(nodes, corners).push(key_of(nodes[a])).push(key_of(nodes[b])).push(
        key_of(nodes[c]),
    );
    assert(left.len() == right.len());
    assert forall|j: int| 0 <= j < left.len() implies left[j] == right[j] by {
        if j < corners.len() {
            assert((corners + seq![a, b, c])[j] == corners[j]);
        } else {
            assert((corners + seq![a, b, c])[j] == seq![a, b, c][j - corners.len()]);
        }
    }
    assert(left =~= right);
}

/// A key gives back the position and the normal it was made of.
pub proof fn lemma_key_parts(n: Node)
    ensures
        key_position(key_of(n)) == n.position,
        key_normal(key_of(n)) == n.normal,
        n.position as u64 * 0x1_0000_0000 + n.normal as u64 <= u64::MAX,
{
    let p = n.position as int;
    let q = n.normal as int;
    assert(p * 0x1_0000_0000 + q <= 0xffff_ffff_ffff_ffff) by (nonlinear_arith)
        requires
            0 <= p <= 0xffff_ffff,
            0 <= q <= 0xffff_ffff,
    ;
    assert((p * 0x1_0000_0000 + q) / 0x1_0000_0000 == p && (p * 0x1_0000_0000 + q) % 0x1_0000_0000
        == q) by (nonlinear_arith)
        requires
            0 <= p,
            0 <= q < 0x1_0000_0000,
    ;
}

/// The corners that a scan up to node `i` has passed: those of the live
/// triangles whose lowest-numbered corner is below `i`.
pub open spec fn passed(nodes: Seq<Node>, i: int) -> Set<int> {
    Set::new(|x: int| live(nodes, x) && face_start_of(nodes, x) < i)
}

/// What a scan finds at node `i` of a linked mesh: the node is the first
/// corner of a triangle not yet passed exactly if it is live and not among
/// the corners passed, and then its triangle's corners are passed next.
pub proof fn lemma_scan_face(
    nodes: Seq<Node>,
    rings: Seq<Seq<u32>>,
    positions: int,
    normals: Option<int>,
    faces: int,
    i: int,
)
    requires
        linked(nodes, rings, positions, normals, faces),
        0 <= i < nodes.len(),
    ensures
        (live(nodes, i) && is_face_start(nodes, i)) <==> (live(nodes, i) && !passed(nodes, i).contains(
            i,
        )),
        live(nodes, i) && is_face_start(nodes, i) ==> {
            let b = next(nodes, i);
            let c = next(nodes, b);
            &&& live(nodes, b)
            &&& live(nodes, c)
            &&& i < b
            &&& i < c
            &&& b != c
            &&& !passed(nodes, i).contains(b)
            &&& !passed(nodes, i).contains(c)
            &&& passed(nodes, i + 1) == passed(nodes, i).insert(i).insert(b).insert(c)
        },
        !(live(nodes, i) && is_face_start(nodes, i)) ==> passed(nodes, i + 1) == passed(nodes, i),
{
    if live(nodes, i) {
        lemma_linked_node(nodes, rings, positions, normals, faces, i);
        let b = next(nodes, i);
        let c = next(nodes, b);
        lemma_linked_node(nodes, rings, positions, normals, faces, b);
        lemma_linked_node(nodes, rings, positions, normals, faces, c);
    }
    if live(nodes, i) && is_face_start(nodes, i) {
        let b = next(nodes, i);
        let c = next(nodes, b);
        assert forall|x: int| passed(nodes, i + 1).contains(x) <==> passed(nodes, i).insert(i).insert(
            b,
        ).insert(c).contains(x) by {
            if live(nodes, x) {
                lemma_linked_node(nodes, rings, positions, normals, faces, x);
                let x1 = next(nodes, x);
                lemma_linked_node(nodes, rings, positions, normals, faces, x1);
                let x2 = next(nodes, x1);
                lemma_linked_node(nodes, rings, positions, normals, faces, x2);
            }
        }
        assert(passed(nodes, i + 1) =~= passed(nodes, i).insert(i).insert(b).insert(c));
    } else {
        assert forall|x: int| passed(nodes, i + 1).contains(x) <==> passed(nodes, i).contains(x) by {
            if live(nodes, x) {
                lemma_linked_node(nodes, rings, positions, normals, faces, x);
                let x1 = next(nodes, x);
                lemma_linked_node(nodes, rings, positions, normals, faces, x1);
                let x2 = next(nodes, x1);
                lemma_linked_node(nodes, rings, positions, normals, faces, x2);
            }
        }
        assert(passed(nodes, i + 1) =~= passed(nodes, i));
    }
}

/// No more corners have been passed than there are nodes.
pub proof fn lemma_passed_bound(nodes: Seq<Node>, i: int)
    ensures
        passed(nodes, i).finite(),
        passed(nodes, i).len() <= nodes.len(),
{
    lemma_int_range(0, nodes.len() as int);
    assert(passed(nodes, i).subset_of(set_int_range(0, nodes.len() as int)));
    lemma_len_subset(passed(nodes, i), set_int_range(0, nodes.len() as int));
}

/// The output arrays hold, for each vertex key, the position and the normal
/// that the key stands for.
pub open spec fn gathered<V>(
    verts: Seq<u64>,
    src_positions: Seq<V>,
    src_normals: Option<Seq<V>>,
    out_positions: Seq<V>,
    out_normals: Option<Seq<V>>,
) -> bool {
    &&& out_positions.len() == verts.len()
    &&& forall|v: int|
        0 <= v < verts.len() ==> key_position(#[trigger] verts[v]) < src_positions.len()
            && out_positions[v] == src_positions[key_position(verts[v])]
    &&& match src_normals {
        Some(ns) => {
            &&& out_normals matches Some(on)
            &&& on.len() == verts.len()
            &&& forall|v: int|
                0 <= v < verts.len() ==> key_normal(#[trigger] verts[v]) < ns.len() && on[v]
                    == ns[key_normal(verts[v])]
        },
        None => out_normals is None,
    }
}

/// The flat mesh made of `triangles` and the two output arrays is the
/// welding of the triangles of `nodes` whose lowest-numbered corner is below
/// `n`: one vertex for each distinct key in the order of first occurrence,
/// and one triangle for each live triangle, in the order and with the
/// winding of [`face_corners`].
pub open spec fn welded<V>(
    nodes: Seq<Node>,
    n: int,
    src_positions: Seq<V>,
    src_normals: Option<Seq<V>>,
    triangles: Seq<U32Vec3>,
    out_positions: Seq<V>,
    out_normals: Option<Seq<V>>,
) -> bool {
    let corners = face_corners(nodes, n);
    let keys = keys_of(nodes, corners);
    let verts = first_seen(keys);
    &&& 3 * triangles.len() == corners.len()
    &&& forall|j: int|
        0 <= j < corners.len() ==> (#[trigger] corner(triangles, j)) < verts.len() && verts[corner(
            triangles,
            j,
        ) as int] == keys[j]
    &&& gathered(verts, src_positions, src_normals, out_positions, out_normals)
}

/// The welding table: it gives each vertex key its place in the vertex
/// list.
pub open spec fn indexes(entries: Map<u64, u32>, verts: Seq<u64>) -> bool {
    &&& verts.no_duplicates()
    &&& forall|k: u64| #[trigger] entries.contains_key(k) <==> verts.contains(k)
    &&& forall|k: u64| #[trigger]
        entries.contains_key(k) ==> entries[k] < verts.len() && verts[entries[k] as int] == k
}

/// The table and the output arrays after a key has been looked up and,
/// where it was new, given the next place.
pub proof fn lemma_see<V>(
    entries: Map<u64, u32>,
    verts: Seq<u64>,
    k: u64,
    src_positions: Seq<V>,
    src_normals: Option<Seq<V>>,
    out_positions: Seq<V>,
    out_normals: Option<Seq<V>>,
)
    requires
        indexes(entries, verts),
        gathered(verts, src_positions, src_normals, out_positions, out_normals),
        !entries.contains_key(k),
        verts.len() < u32::MAX,
        key_position(k) < src_positions.len(),
        src_normals matches Some(ns) ==> key_normal(k) < ns.len(),
    ensures
        see(verts, k) == verts.push(k),
        indexes(entries.insert(k, verts.len() as u32), verts.push(k)),
        gathered(
            verts.push(k),
            src_positions,
            src_normals,
            out_positions.push(src_positions[key_position(k)]),
            match src_normals {
                Some(ns) => Some(out_normals->0.push(ns[key_normal(k)])),
                None => None,
            },
        ),
{
    let verts2 = verts.push(k);
    let entries2 = entries.insert(k, verts.len() as u32);
    assert forall|x: u64| #[trigger] entries2.contains_key(x) <==> verts2.contains(x) by {
        if verts2.contains(x) {
            let j = verts2.index_of(x);
            if j < verts.len() {
                assert(verts[j] == x);
                assert(verts.contains(x));
            }
        }
        if entries2.contains_key(x) {
            if x == k {
                assert(verts2[verts.len() as int] == k);
            } else {
                assert(verts.contains(x));
                let j = verts.index_of(x);
                assert(verts2[j] == x);
            }
        }
    }
    assert forall|v: int| 0 <= v < verts2.len() implies key_position(#[trigger] verts2[v])
        < src_positions.len() && out_positions.push(src_positions[key_position(k)])[v]
        == src_positions[key_position(verts2[v])] by {
        if v < verts.len() {
            assert(verts2[v] == verts[v]);
        }
    }
    if let Some(ns) = src_normals {
        let on = out_normals->0.push(ns[key_normal(k)]);
        assert forall|v: int| 0 <= v < verts2.len() implies key_normal(#[trigger] verts2[v])
            < ns.len() && on[v] == ns[key_normal(verts2[v])] by {
            if v < verts.len() {
                assert(verts2[v] == verts[v]);
            }
        }
    }
}

/// One more triangle has been welded: its three corners have been looked
/// up in turn, which took the vertex list from `verts` to `verts3`, and
/// gave the vertex indices `va`, `vb` and `vc`.
pub proof fn lemma_weld_step<V>(
    nodes: Seq<Node>,
    i: int,
    src_positions: Seq<V>,
    src_normals: Option<Seq<V>>,
    triangles: Seq<U32Vec3>,
    out_positions: Seq<V>,
    out_normals: Option<Seq<V>>,
    va: u32,
    vb: u32,
    vc: u32,
)
    requires
        0 <= i < nodes.len(),
        live(nodes, i),
        is_face_start(nodes, i),
        3 * triangles.len() == face_corners(nodes, i).len(),
        forall|j: int|
            0 <= j < 3 * triangles.len() ==> (#[trigger] corner(triangles, j)) < first_seen(
                keys_of(nodes, face_corners(nodes, i)),
            ).len() && first_seen(keys_of(nodes, face_corners(nodes, i)))[corner(triangles, j) as int]
                == keys_of(nodes, face_corners(nodes, i))[j],
        ({
            let verts = first_seen(keys_of(nodes, face_corners(nodes, i)));
            let b = next(nodes, i);
            let c = next(nodes, b);
            let verts1 = see(verts, key_of(nodes[i]));
            let verts2 = see(verts1, key_of(nodes[b]));
            let verts3 = see(verts2, key_of(nodes[c]));
            &&& va < verts1.len() && verts1[va as int] == key_of(nodes[i])
            &&& vb < verts2.len() && verts2[vb as int] == key_of(nodes[b])
            &&& vc < verts3.len() && verts3[vc as int] == key_of(nodes[c])
            &&& gathered(verts3, src_positions, src_normals, out_positions, out_normals)
        }),
    ensures
        welded(
            nodes,
            i + 1,
            src_positions,
            src_normals,
            triangles.push(U32Vec3(va, vb, vc)),
            out_positions,
            out_normals,
        ),
        first_seen(keys_of(nodes, face_corners(nodes, i + 1))) == see(
            see(
                see(first_seen(keys_of(nodes, face_corners(nodes, i))), key_of(nodes[i])),
                key_of(nodes[next(nodes, i)]),
            ),
            key_of(nodes[next(nodes, next(nodes, i))]),
        ),
{
    let corners = face_corners(nodes, i);
    let keys = keys_of(nodes, corners);
    let verts = first_seen(keys);
    let b = next(nodes, i);
    let c = next(nodes, b);
    let ka = key_of(nodes[i]);
    let kb = key_of(nodes[b]);
    let kc = key_of(nodes[c]);
    let verts1 = see(verts, ka);
    let verts2 = see(verts1, kb);
    let verts3 = see(verts2, kc);
    let corners2 = face_corners(nodes, i + 1);
    assert(corners2 == corners + seq![i, b, c]);
    lemma_keys_three(nodes, corners, i, b, c);
    let keys2 = keys_of(nodes, corners2);
    lemma_first_seen_push(keys, ka);
    lemma_first_seen_push(keys.push(ka), kb);
    lemma_first_seen_push(keys.push(ka).push(kb), kc);
    assert(first_seen(keys2) == verts3);
    let triangles2 = triangles.push(U32Vec3(va, vb, vc));
    let t = triangles.len() as int;
    assert forall|j: int| 0 <= j < corners2.len() implies (#[trigger] corner(triangles2, j))
        < verts3.len() && verts3[corner(triangles2, j) as int] == keys2[j] by {
        if j < 3 * t {
            assert(j / 3 < t);
            assert(corner(triangles2, j) == corner(triangles, j));
            let v = corner(triangles, j) as int;
            assert(verts[v] == keys[j]);
            assert(verts1[v] == verts[v]);
            assert(verts2[v] == verts1[v]);
            assert(verts3[v] == verts2[v]);
            assert(keys2[j] == keys[j]);
        } else {
            assert(j / 3 == t);
            assert(verts2[va as int] == verts1[va as int]);
            assert(verts3[va as int] == verts2[va as int]);
            assert(verts3[vb as int] == verts2[vb as int]);
            if j == 3 * t {
                assert(corner(triangles2, j) == va);
                assert(keys2[j] == ka);
            } else if j == 3 * t + 1 {
                assert(corner(triangles2, j) == vb);
                assert(keys2[j] == kb);
            } else {
                assert(corner(triangles2, j) == vc);
                assert(keys2[j] == kc);
            }
        }
    }
}

} // verus!
