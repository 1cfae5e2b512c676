//! The model of an edge collapse: which triangles vanish when the vertices
//! at two positions are merged, and what holds of the mesh while the corners
//! round the first vertex are being scanned.

use vstd::prelude::*;
use super::node::Node;
use super::topology::{
    clean, face_closed, face_total, is_ring, left_of, lemma_left_of_frame, lemma_left_of_start,
    lemma_left_of_step, lemma_linked_member, lemma_linked_node, lemma_linked_ring,
    lemma_rotate_ring, lemma_survivors_members, linked, live, merged_rings, node_ok, relinks,
    rotate, same_faces, survivors,
};

verus! {

/// Of the three positions one is `pa`, another `pb`, and the third neither.
pub open spec fn spans(u: u32, v: u32, w: u32, pa: u32, pb: u32) -> bool {
    ||| u == pa && v == pb && w != pa && w != pb
    ||| u == pa && w == pb && v != pa && v != pb
    ||| v == pa && w == pb && u != pa && u != pb
    ||| v == pa && u == pb && w != pa && w != pb
    ||| w == pa && u == pb && v != pa && v != pb
    ||| w == pa && v == pb && u != pa && u != pb
}

/// The corner that follows `i` in its triangle.
pub open spec fn next(nodes: Seq<Node>, i: int) -> int {
    nodes[i].relative as int
}

/// Node `i` is a live corner of a triangle that the collapse of the edge
/// between the positions `pa` and `pb` removes: a triangle with one corner
/// at each of the two and its third corner elsewhere.
pub open spec fn doomed(nodes: Seq<Node>, i: int, pa: u32, pb: u32) -> bool {
    &&& live(nodes, i)
    &&& spans(
        nodes[i].position,
        nodes[next(nodes, i)].position,
        nodes[next(nodes, next(nodes, i))].position,
        pa,
        pb,
    )
}

/// How the node array `after` an edge collapse relates to the array
/// `before` it: the corners of the triangles that spanned the edge between
/// `pa` and `pb` are removed and no others, the corners that are left at
/// `pb` have moved to `pa`, and the triangles are as they were.
pub open spec fn collapsed(before: Seq<Node>, after: Seq<Node>, pa: u32, pb: u32) -> bool {
    &&& after.len() == before.len()
    &&& forall|i: int|
        0 <= i < before.len() ==> {
            &&& (#[trigger] after[i]).relative == before[i].relative
            &&& after[i].normal == before[i].normal
            &&& after[i].is_removed == (before[i].is_removed || doomed(before, i, pa, pb))
        }
    &&& forall|i: int| #[trigger]
        live(after, i) ==> after[i].position == (if before[i].position == pb {
            pa
        } else {
            before[i].position
        })
}

/// `after` is `before` with the three corners of the triangle of `s`
/// flagged as removed.
pub open spec fn flags_face(before: Seq<Node>, after: Seq<Node>, s: int) -> bool {
    let r1 = next(before, s);
    let r2 = next(before, r1);
    &&& after.len() == before.len()
    &&& forall|i: int|
        0 <= i < before.len() ==> #[trigger] after[i] == if i == s || i == r1 || i == r2 {
            Node { is_removed: true, ..before[i] }
        } else {
            before[i]
        }
}

/// `now` differs from `then` only in `sibling` links and in nodes that have
/// been removed since.
pub open spec fn only_removals(then: Seq<Node>, now: Seq<Node>) -> bool {
    &&& now.len() == then.len()
    &&& forall|i: int|
        0 <= i < then.len() ==> {
            &&& (#[trigger] now[i]).relative == then[i].relative
            &&& now[i].normal == then[i].normal
            &&& now[i].position == then[i].position
            &&& then[i].is_removed ==> now[i].is_removed
        }
}

/// The triangles of the entries of `walk` before `idx` that span the edge
/// are gone, and those of the other entries are there.
pub open spec fn scanned(first: Seq<Node>, nodes: Seq<Node>, pa: u32, pb: u32, walk: Seq<u32>, idx: int) -> bool {
    forall|k: int|
        0 <= k < walk.len() ==> {
            let s = #[trigger] walk[k] as int;
            let gone = k < idx && doomed(first, s, pa, pb);
            &&& nodes[s].is_removed == gone
            &&& nodes[next(first, s)].is_removed == gone
            &&& nodes[next(first, next(first, s))].is_removed == gone
        }
}

/// A triangle without a corner at `pa` is untouched.
pub open spec fn spared(first: Seq<Node>, nodes: Seq<Node>, pa: u32) -> bool {
    forall|i: int|
        #![trigger live(nodes, i)]
        live(first, i) && first[i].position != pa && first[next(first, i)].position != pa
            && first[next(first, next(first, i))].position != pa ==> live(nodes, i)
}

/// Every ring but those of `pa` and `pb` holds what is left of its members
/// at the start, and nothing that has been removed.
pub open spec fn rings_pruned(
    first_rings: Seq<Seq<u32>>,
    nodes: Seq<Node>,
    rings: Seq<Seq<u32>>,
    pa: u32,
    pb: u32,
) -> bool {
    &&& rings.len() == first_rings.len()
    &&& rings[pa as int] == first_rings[pa as int]
    &&& rings[pb as int] == first_rings[pb as int]
    &&& forall|q: int, k: int|
        0 <= q < rings.len() && q != pa && q != pb && 0 <= k < rings[q].len() ==> live(
            nodes,
            #[trigger] rings[q][k] as int,
        )
    &&& forall|q: int, x: u32|
        0 <= q < rings.len() && q != pa && q != pb ==> (#[trigger] rings[q].contains(x) <==> (
        first_rings[q].contains(x) && live(nodes, x as int)))
    &&& forall|q: int|
        0 <= q < rings.len() && q != pa && q != pb ==> left_of(
            first_rings[q],
            nodes,
            #[trigger] rings[q],
        )
}

/// What holds while the ring `walk` of the first vertex is scanned, before
/// its entry `idx` is looked at.
#[verifier::opaque]
pub open spec fn scan_inv(
    first: Seq<Node>,
    first_rings: Seq<Seq<u32>>,
    nodes: Seq<Node>,
    rings: Seq<Seq<u32>>,
    pa: u32,
    pb: u32,
    walk: Seq<u32>,
    idx: int,
) -> bool {
    &&& only_removals(first, nodes)
    &&& rings_pruned(first_rings, nodes, rings, pa, pb)
    &&& scanned(first, nodes, pa, pb, walk, idx)
    &&& spared(first, nodes, pa)
}

/// The lowest-numbered corner of the triangle of `s`.
pub open spec fn face_start_of(nodes: Seq<Node>, s: int) -> int {
    let r1 = next(nodes, s);
    let r2 = next(nodes, r1);
    if s < r1 && s < r2 {
        s
    } else if r1 < r2 {
        r1
    } else {
        r2
    }
}

/// The count of triangles below `n` after one live triangle has been
/// flagged.
proof fn lemma_face_total_flag(before: Seq<Node>, after: Seq<Node>, s: int, n: int)
    requires
        live(before, s),
        face_closed(before, s),
        flags_face(before, after, s),
        0 <= n <= before.len(),
    ensures
        face_total(before, n) == face_total(after, n) + if face_start_of(before, s) < n {
            1nat
        } else {
            0nat
        },
    decreases n,
{
    if n > 0 {
        lemma_face_total_flag(before, after, s, n - 1);
        let i = n - 1;
        let r1 = next(before, s);
        let r2 = next(before, r1);
        if i == s || i == r1 || i == r2 {
            assert(!live(after, i));
        } else {
            assert(after[i] == before[i]);
            if before[i].relative < before.len() {
                assert(after[before[i].relative as int].relative
                    == before[before[i].relative as int].relative);
            }
        }
    }
}

/// Flagging a live triangle keeps the mesh linked and takes one from the
/// number of its triangles.
pub proof fn lemma_flag_face(
    before: Seq<Node>,
    after: Seq<Node>,
    rings: Seq<Seq<u32>>,
    s: int,
    positions: int,
    normals: Option<int>,
    faces: int,
)
    requires
        linked(before, rings, positions, normals, faces),
        live(before, s),
        flags_face(before, after, s),
    ensures
        faces >= 1,
        linked(after, rings, positions, normals, faces - 1),
{
    reveal(linked);
    let n = before.len() as int;
    let r1 = next(before, s);
    let r2 = next(before, r1);
    assert(node_ok(before, s, positions, normals));
    lemma_face_total_flag(before, after, s, n);
    assert forall|i: int| #[trigger] live(after, i) implies node_ok(after, i, positions, normals) by {
        assert(live(before, i));
        assert(node_ok(before, i, positions, normals));
        let a = next(before, i);
        let b = next(before, a);
        assert(after[i] == before[i]);
        assert(after[a].relative == before[a].relative);
        assert(after[b].relative == before[b].relative);
    }
    assert forall|p: int| 0 <= p < positions implies is_ring(after, #[trigger] rings[p], p) by {
        let r = rings[p];
        assert(is_ring(before, r, p));
        assert forall|k: int| 0 <= k < r.len() implies (#[trigger] after[r[k] as int]).position == p
            && after[r[k] as int].sibling == before[r[k] as int].sibling by {
            assert(before[r[k] as int].position == p);
        }
    }
    assert forall|i: int| #[trigger] live(after, i) implies rings[after[i].position as int].contains(
        i as u32,
    ) by {
        assert(live(before, i));
    }
}

/// The ring of a live node of a well-formed mesh, read from that node
/// onwards, is a ring of live nodes with the same members.
pub proof fn lemma_walk_live(nodes: Seq<Node>, rings: Seq<Seq<u32>>, pa: u32, a: u32)
    requires
        clean(nodes, rings),
        pa < rings.len(),
        is_ring(nodes, rings[pa as int], pa as int),
        rings[pa as int].contains(a),
    ensures
        ({
            let walk = rotate(rings[pa as int], rings[pa as int].index_of(a));
            &&& is_ring(nodes, walk, pa as int)
            &&& forall|k: int| 0 <= k < walk.len() ==> live(nodes, #[trigger] walk[k] as int)
            &&& forall|x: u32| rings[pa as int].contains(x) <==> walk.contains(x)
        }),
{
    let ring = rings[pa as int];
    let walk = rotate(ring, ring.index_of(a));
    lemma_rotate_ring(nodes, ring, pa as int, ring.index_of(a));
    assert forall|k: int| 0 <= k < walk.len() implies live(nodes, #[trigger] walk[k] as int) by {
        assert(walk.contains(walk[k]));
        assert(ring.contains(walk[k]));
        let m = ring.index_of(walk[k]);
        assert(live(nodes, ring[m] as int));
    }
}

/// The scan starts from a well-formed mesh.
pub proof fn lemma_scan_start(
    nodes: Seq<Node>,
    rings: Seq<Seq<u32>>,
    positions: int,
    normals: Option<int>,
    faces: int,
    pa: u32,
    pb: u32,
    walk: Seq<u32>,
)
    requires
        linked(nodes, rings, positions, normals, faces),
        clean(nodes, rings),
        pa < positions,
        pb < positions,
        forall|k: int| 0 <= k < walk.len() ==> live(nodes, #[trigger] walk[k] as int),
    ensures
        scan_inv(nodes, rings, nodes, rings, pa, pb, walk, 0),
{
    reveal(scan_inv);
    assert(rings.len() == positions) by {
        lemma_linked_ring(nodes, rings, positions, normals, faces, pa as int);
    }
    assert forall|k: int| 0 <= k < walk.len() implies {
        let s = #[trigger] walk[k] as int;
        &&& !nodes[s].is_removed
        &&& !nodes[next(nodes, s)].is_removed
        &&& !nodes[next(nodes, next(nodes, s))].is_removed
    } by {
        lemma_linked_node(nodes, rings, positions, normals, faces, walk[k] as int);
    }
    assert forall|q: int, x: u32| 0 <= q < rings.len() && q != pa && q != pb implies (
    #[trigger] rings[q].contains(x) <==> (rings[q].contains(x) && live(nodes, x as int))) by {
        if rings[q].contains(x) {
            let m = rings[q].index_of(x);
            assert(live(nodes, rings[q][m] as int));
        }
    }
    assert forall|q: int| 0 <= q < rings.len() && q != pa && q != pb implies left_of(
        rings[q],
        nodes,
        #[trigger] rings[q],
    ) by {
        assert forall|k: int| 0 <= k < rings[q].len() implies live(nodes, #[trigger] rings[q][k] as int) by {}
        lemma_left_of_start(rings[q], nodes);
    }
}

/// What the scan finds at entry `idx`: a live corner at `pa` whose triangle
/// is still there, with the links and positions it had at the start.
pub proof fn lemma_scan_look(
    first: Seq<Node>,
    first_rings: Seq<Seq<u32>>,
    nodes: Seq<Node>,
    rings: Seq<Seq<u32>>,
    positions: int,
    normals: Option<int>,
    faces: int,
    pa: u32,
    pb: u32,
    walk: Seq<u32>,
    idx: int,
)
    requires
        linked(nodes, rings, positions, normals, faces),
        scan_inv(first, first_rings, nodes, rings, pa, pb, walk, idx),
        is_ring(first, walk, pa as int),
        0 <= idx < walk.len(),
        live(first, walk[idx] as int),
    ensures
        ({
            let s = walk[idx] as int;
            let r1 = next(nodes, s);
            let r2 = next(nodes, r1);
            &&& live(nodes, s)
            &&& live(nodes, r1)
            &&& live(nodes, r2)
            &&& r1 == next(first, s)
            &&& r2 == next(first, r1)
            &&& next(nodes, r2) == s
            &&& nodes[s].position == pa
            &&& nodes[r1].position == first[r1].position
            &&& nodes[r2].position == first[r2].position
            &&& nodes[r1].position < positions
            &&& nodes[r2].position < positions
            &&& rings[nodes[r1].position as int].contains(r1 as u32)
            &&& rings[nodes[r2].position as int].contains(r2 as u32)
            &&& doomed(first, s, pa, pb) == spans(pa, nodes[r1].position, nodes[r2].position, pa, pb)
            &&& rings.len() == positions
            &&& nodes.len() <= u32::MAX
        }),
{
    reveal(scan_inv);
    let s = walk[idx] as int;
    assert(first[walk[idx] as int].position == pa);
    assert(!nodes[s].is_removed);
    assert(live(nodes, s));
    lemma_linked_node(nodes, rings, positions, normals, faces, s);
    let r1 = next(nodes, s);
    let r2 = next(nodes, r1);
    lemma_linked_node(nodes, rings, positions, normals, faces, r1);
    lemma_linked_node(nodes, rings, positions, normals, faces, r2);
    assert(nodes[s].relative == first[s].relative);
    assert(nodes[r1].relative == first[r1].relative);
    assert(nodes[r1].position == first[r1].position);
    assert(nodes[r2].position == first[r2].position);
    assert(nodes[s].position == first[s].position);
}

/// An entry whose triangle does not span the edge is passed over.
pub proof fn lemma_scan_skip(
    first: Seq<Node>,
    first_rings: Seq<Seq<u32>>,
    nodes: Seq<Node>,
    rings: Seq<Seq<u32>>,
    pa: u32,
    pb: u32,
    walk: Seq<u32>,
    idx: int,
)
    requires
        scan_inv(first, first_rings, nodes, rings, pa, pb, walk, idx),
        0 <= idx < walk.len(),
        !doomed(first, walk[idx] as int, pa, pb),
    ensures
        scan_inv(first, first_rings, nodes, rings, pa, pb, walk, idx + 1),
{
    reveal(scan_inv);
    assert forall|k: int| 0 <= k < walk.len() implies {
        let s = #[trigger] walk[k] as int;
        let gone = k < idx + 1 && doomed(first, s, pa, pb);
        &&& nodes[s].is_removed == gone
        &&& nodes[next(first, s)].is_removed == gone
        &&& nodes[next(first, next(first, s))].is_removed == gone
    } by {}
}

/// Re-threading a ring whose members all sit at `p` moves no node.
proof fn lemma_relinks_in_place(mid: Seq<Node>, fin: Seq<Node>, kept: Seq<u32>, p: u32)
    requires
        mid.len() <= u32::MAX,
        relinks(mid, fin, kept, p),
        forall|k: int|
            0 <= k < kept.len() ==> (#[trigger] kept[k]) < mid.len() && mid[kept[k] as int].position
                == p,
    ensures
        forall|i: int|
            0 <= i < mid.len() ==> (#[trigger] fin[i]) == (Node {
                sibling: fin[i].sibling,
                ..mid[i]
            }),
{
    assert forall|i: int| 0 <= i < mid.len() implies (#[trigger] fin[i]) == (Node {
        sibling: fin[i].sibling,
        ..mid[i]
    }) by {
        if kept.contains(i as u32) {
            let k = kept.index_of(i as u32);
            assert(fin[kept[k] as int].position == p);
        } else {
            assert(fin[i] == mid[i]);
        }
    }
}

/// The part of the scan's invariant that speaks of the entries of `walk`,
/// after the triangle of entry `idx` has been flagged.
proof fn lemma_scanned_flag(
    first: Seq<Node>,
    first_rings: Seq<Seq<u32>>,
    nodes: Seq<Node>,
    mid: Seq<Node>,
    positions: int,
    normals: Option<int>,
    first_faces: int,
    pa: u32,
    pb: u32,
    walk: Seq<u32>,
    idx: int,
)
    requires
        linked(first, first_rings, positions, normals, first_faces),
        only_removals(first, nodes),
        scanned(first, nodes, pa, pb, walk, idx),
        spared(first, nodes, pa),
        pa != pb,
        is_ring(first, walk, pa as int),
        forall|k: int| 0 <= k < walk.len() ==> live(first, #[trigger] walk[k] as int),
        0 <= idx < walk.len(),
        doomed(first, walk[idx] as int, pa, pb),
        flags_face(nodes, mid, walk[idx] as int),
    ensures
        only_removals(first, mid),
        scanned(first, mid, pa, pb, walk, idx + 1),
        spared(first, mid, pa),
{
    let s = walk[idx] as int;
    lemma_linked_node(first, first_rings, positions, normals, first_faces, s);
    let r1 = next(first, s);
    let r2 = next(first, r1);
    assert(first[walk[idx] as int].position == pa);
    assert(nodes[s].relative == first[s].relative);
    assert(nodes[r1].relative == first[r1].relative);
    assert forall|i: int| 0 <= i < first.len() implies {
        &&& (#[trigger] mid[i]).relative == first[i].relative
        &&& mid[i].normal == first[i].normal
        &&& mid[i].position == first[i].position
        &&& first[i].is_removed ==> mid[i].is_removed
    } by {
        assert(nodes[i].relative == first[i].relative);
    }
    assert forall|k: int| 0 <= k < walk.len() implies {
        let t = #[trigger] walk[k] as int;
        let gone = k < idx + 1 && doomed(first, t, pa, pb);
        &&& mid[t].is_removed == gone
        &&& mid[next(first, t)].is_removed == gone
        &&& mid[next(first, next(first, t))].is_removed == gone
    } by {
        let t = walk[k] as int;
        let t1 = next(first, t);
        let t2 = next(first, t1);
        lemma_linked_node(first, first_rings, positions, normals, first_faces, t);
        if k != idx {
            assert(walk[k] != walk[idx]);
            assert(first[walk[k] as int].position == pa);
            assert(mid[t] == nodes[t]);
            assert(mid[t1] == nodes[t1]);
            assert(mid[t2] == nodes[t2]);
        } else {
            assert(mid[t].is_removed);
            assert(mid[t1].is_removed);
            assert(mid[t2].is_removed);
        }
    }
    assert forall|i: int|
        #![trigger live(mid, i)]
        live(first, i) && first[i].position != pa && first[next(first, i)].position != pa
            && first[next(first, next(first, i))].position != pa implies live(mid, i) by {
        assert(live(nodes, i));
        lemma_linked_node(first, first_rings, positions, normals, first_faces, i);
        assert(mid[i] == nodes[i]);
    }
}

/// The part of the scan's invariant that speaks of the rings, after the
/// triangle of `s` has been flagged and the ring at `pc`, the position of
/// its third corner, has been replaced by what is left of it when it is
/// read from its entry `j` onwards.
proof fn lemma_pruned_flag(
    first: Seq<Node>,
    first_rings: Seq<Seq<u32>>,
    nodes: Seq<Node>,
    mid: Seq<Node>,
    rings: Seq<Seq<u32>>,
    positions: int,
    normals: Option<int>,
    first_faces: int,
    faces: int,
    pa: u32,
    pb: u32,
    pc: u32,
    s: int,
    j: int,
)
    requires
        linked(first, first_rings, positions, normals, first_faces),
        linked(nodes, rings, positions, normals, faces),
        only_removals(first, nodes),
        rings_pruned(first_rings, nodes, rings, pa, pb),
        live(nodes, s),
        flags_face(nodes, mid, s),
        spans(
            nodes[s].position,
            nodes[next(nodes, s)].position,
            nodes[next(nodes, next(nodes, s))].position,
            pa,
            pb,
        ),
        pc == nodes[s].position || pc == nodes[next(nodes, s)].position || pc == nodes[next(
            nodes,
            next(nodes, s),
        )].position,
        pa < positions,
        pb < positions,
        pc != pa,
        pc != pb,
        pc < positions,
        0 <= j <= rings[pc as int].len(),
        forall|x: u32|
            survivors(mid, rotate(rings[pc as int], j)).contains(x) <==> (rings[pc as int].contains(x)
                && live(mid, x as int)),
    ensures
        rings_pruned(
            first_rings,
            mid,
            rings.update(pc as int, survivors(mid, rotate(rings[pc as int], j))),
            pa,
            pb,
        ),
{
    let kept = survivors(mid, rotate(rings[pc as int], j));
    lemma_linked_node(nodes, rings, positions, normals, faces, s);
    let rings2 = rings.update(pc as int, kept);
    lemma_linked_ring(first, first_rings, positions, normals, first_faces, pc as int);
    assert forall|q: int, k: int|
        0 <= q < rings2.len() && q != pa && q != pb && 0 <= k < rings2[q].len() implies live(
        mid,
        #[trigger] rings2[q][k] as int,
    ) by {
        if q == pc {
            assert(kept.contains(kept[k]));
        } else {
            let x = rings[q][k];
            assert(live(nodes, x as int));
            assert(rings[q].contains(x));
            lemma_linked_member(nodes, rings, positions, normals, faces, q, x);
        }
    }
    assert forall|q: int, x: u32| 0 <= q < rings2.len() && q != pa && q != pb implies (
    #[trigger] rings2[q].contains(x) <==> (first_rings[q].contains(x) && live(mid, x as int))) by {
        assert(rings[q].contains(x) <==> (first_rings[q].contains(x) && live(nodes, x as int)));
        if rings[q].contains(x) {
            lemma_linked_member(nodes, rings, positions, normals, faces, q, x);
        }
        if x < mid.len() {
            assert(mid[x as int].is_removed ==> nodes[x as int].is_removed || x == s || x == next(
                nodes,
                s,
            ) || x == next(nodes, next(nodes, s)));
        }
    }
    assert forall|i: int| 0 <= i < nodes.len() && (#[trigger] nodes[i]).is_removed implies mid[i].is_removed by {
        assert(mid[i].is_removed);
    }
    assert forall|q: int| 0 <= q < rings2.len() && q != pa && q != pb implies left_of(
        first_rings[q],
        mid,
        #[trigger] rings2[q],
    ) by {
        assert(left_of(first_rings[q], nodes, rings[q]));
        if q == pc {
            lemma_left_of_step(first_rings[q], nodes, mid, rings[q], j);
        } else {
            let ring = first_rings[q];
            lemma_linked_ring(first, first_rings, positions, normals, first_faces, q);
            assert forall|k: int| 0 <= k < ring.len() && ring[k] < nodes.len() implies (
            #[trigger] nodes[ring[k] as int]).is_removed == mid[ring[k] as int].is_removed by {
                assert(first[ring[k] as int].position == q);
                assert(nodes[ring[k] as int].position == first[ring[k] as int].position);
            }
            lemma_left_of_frame(ring, nodes, mid, rings[q]);
        }
    }
}

/// The table stays right, away from the two endpoints, when a triangle has
/// been flagged and the entry at `pc`, the position of its third corner,
/// set to the head of what is left of the ring there.
pub proof fn lemma_tracks_flag(
    nodes: Seq<Node>,
    mid: Seq<Node>,
    rings: Seq<Seq<u32>>,
    positions: int,
    normals: Option<int>,
    faces: int,
    m: Map<u64, u32>,
    pa: u32,
    pb: u32,
    pc: u32,
    s: int,
    kept: Seq<u32>,
)
    requires
        linked(nodes, rings, positions, normals, faces),
        tracks_but(nodes, m, pa, pb),
        live(nodes, s),
        flags_face(nodes, mid, s),
        spans(
            nodes[s].position,
            nodes[next(nodes, s)].position,
            nodes[next(nodes, next(nodes, s))].position,
            pa,
            pb,
        ),
        pc == nodes[s].position || pc == nodes[next(nodes, s)].position || pc == nodes[next(
            nodes,
            next(nodes, s),
        )].position,
        pc != pa,
        pc != pb,
        pc < positions,
        forall|x: u32| kept.contains(x) <==> (rings[pc as int].contains(x) && live(mid, x as int)),
    ensures
        tracks_but(mid, noted(m, pc, head(kept)), pa, pb),
{
    let m2 = noted(m, pc, head(kept));
    lemma_linked_node(nodes, rings, positions, normals, faces, s);
    assert forall|q: u64| #[trigger] m2.contains_key(q) && q != pa && q != pb implies live(
        mid,
        m2[q] as int,
    ) && mid[m2[q] as int].position == q by {
        if q == pc {
            assert(kept.contains(kept[0]));
            lemma_linked_member(nodes, rings, positions, normals, faces, pc as int, kept[0]);
        } else {
            assert(m.contains_key(q));
            let x = m[q] as int;
            assert(mid[x] == nodes[x]);
        }
    }
    assert forall|i: int|
        #[trigger] live(mid, i) && mid[i].position != pa && mid[i].position != pb
            implies m2.contains_key(mid[i].position as u64) by {
        assert(live(nodes, i));
        if mid[i].position == pc {
            lemma_linked_node(nodes, rings, positions, normals, faces, i);
            assert(kept.contains(i as u32));
            assert(kept.len() > 0);
        }
    }
}

/// The invariants of the scan speak of links and flags that re-threading a
/// ring in place does not touch.
proof fn lemma_scan_frame(
    first: Seq<Node>,
    first_rings: Seq<Seq<u32>>,
    mid: Seq<Node>,
    fin: Seq<Node>,
    rings: Seq<Seq<u32>>,
    pa: u32,
    pb: u32,
    walk: Seq<u32>,
    idx: int,
)
    requires
        only_removals(first, mid),
        rings_pruned(first_rings, mid, rings, pa, pb),
        scanned(first, mid, pa, pb, walk, idx),
        spared(first, mid, pa),
        forall|k: int| 0 <= k < walk.len() ==> live(first, #[trigger] walk[k] as int),
        forall|k: int|
            0 <= k < walk.len() ==> 0 <= next(first, #[trigger] walk[k] as int) < first.len() && 0
                <= next(first, next(first, walk[k] as int)) < first.len(),
        forall|q: int, k: int|
            0 <= q < rings.len() && 0 <= k < rings[q].len() ==> (#[trigger] rings[q][k]) < mid.len(),
        fin.len() == mid.len(),
        forall|i: int|
            0 <= i < mid.len() ==> (#[trigger] fin[i]) == (Node {
                sibling: fin[i].sibling,
                ..mid[i]
            }),
    ensures
        only_removals(first, fin),
        rings_pruned(first_rings, fin, rings, pa, pb),
        scanned(first, fin, pa, pb, walk, idx),
        spared(first, fin, pa),
{
    assert forall|i: int| 0 <= i < first.len() implies {
        &&& (#[trigger] fin[i]).relative == first[i].relative
        &&& fin[i].normal == first[i].normal
        &&& fin[i].position == first[i].position
        &&& first[i].is_removed ==> fin[i].is_removed
    } by {
        assert(mid[i].relative == first[i].relative);
    }
    assert forall|i: int| live(fin, i) == live(mid, i) by {
        if 0 <= i < mid.len() {
            assert(fin[i].is_removed == mid[i].is_removed);
        }
    }
    assert forall|q: int, k: int|
        0 <= q < rings.len() && q != pa && q != pb && 0 <= k < rings[q].len() implies live(
        fin,
        #[trigger] rings[q][k] as int,
    ) by {
        assert(live(mid, rings[q][k] as int));
    }
    assert forall|q: int, x: u32| 0 <= q < rings.len() && q != pa && q != pb implies (
    #[trigger] rings[q].contains(x) <==> (first_rings[q].contains(x) && live(fin, x as int))) by {
        assert(rings[q].contains(x) <==> (first_rings[q].contains(x) && live(mid, x as int)));
    }
    assert forall|q: int| 0 <= q < rings.len() && q != pa && q != pb implies left_of(
        first_rings[q],
        fin,
        #[trigger] rings[q],
    ) by {
        let ring = first_rings[q];
        assert forall|k: int| 0 <= k < ring.len() && ring[k] < mid.len() implies (
        #[trigger] mid[ring[k] as int]).is_removed == fin[ring[k] as int].is_removed by {
            assert(fin[ring[k] as int].is_removed == mid[ring[k] as int].is_removed);
        }
        lemma_left_of_frame(ring, mid, fin, rings[q]);
    }
    assert forall|k: int| 0 <= k < walk.len() implies {
        let t = #[trigger] walk[k] as int;
        let gone = k < idx && doomed(first, t, pa, pb);
        &&& fin[t].is_removed == gone
        &&& fin[next(first, t)].is_removed == gone
        &&& fin[next(first, next(first, t))].is_removed == gone
    } by {
        let t = walk[k] as int;
        assert(fin[t].is_removed == mid[t].is_removed);
        assert(fin[next(first, t)].is_removed == mid[next(first, t)].is_removed);
        assert(fin[next(first, next(first, t))].is_removed == mid[next(
            first,
            next(first, t),
        )].is_removed);
    }
    assert forall|i: int|
        #![trigger live(fin, i)]
        live(first, i) && first[i].position != pa && first[next(first, i)].position != pa
            && first[next(first, next(first, i))].position != pa implies live(fin, i) by {
        assert(live(mid, i));
    }
}

/// The table `m` names, for every position that has a live corner, one live
/// corner at it, and holds nothing else.
pub open spec fn tracks(nodes: Seq<Node>, m: Map<u64, u32>) -> bool {
    &&& forall|q: u64| #[trigger]
        m.contains_key(q) ==> live(nodes, m[q] as int) && nodes[m[q] as int].position == q
    &&& forall|i: int| #[trigger] live(nodes, i) ==> m.contains_key(nodes[i].position as u64)
}

/// As [`tracks`], but for the positions `pa` and `pb`, of which nothing is
/// said.
pub open spec fn tracks_but(nodes: Seq<Node>, m: Map<u64, u32>, pa: u32, pb: u32) -> bool {
    &&& forall|q: u64|
        #[trigger] m.contains_key(q) && q != pa && q != pb ==> live(nodes, m[q] as int)
            && nodes[m[q] as int].position == q
    &&& forall|i: int|
        #[trigger] live(nodes, i) && nodes[i].position != pa && nodes[i].position != pb
            ==> m.contains_key(nodes[i].position as u64)
}

/// The table after the entry of `p` has been set to `first`, or taken out
/// where `first` is `None`.
pub open spec fn noted(m: Map<u64, u32>, p: u32, first: Option<u32>) -> Map<u64, u32> {
    match first {
        Some(n) => m.insert(p as u64, n),
        None => m.remove(p as u64),
    }
}

/// The table, where there is one, after the entry of `p` has been set.
pub open spec fn noted_in(table: Option<Map<u64, u32>>, p: u32, first: Option<u32>) -> Option<
    Map<u64, u32>,
> {
    match table {
        Some(m) => Some(noted(m, p, first)),
        None => None,
    }
}

/// No member of the ring has been removed.
pub open spec fn untouched(ring: Seq<u32>, nodes: Seq<Node>) -> bool {
    forall|k: int| 0 <= k < ring.len() ==> live(nodes, #[trigger] ring[k] as int)
}

/// The table `m` has the entry that `m0` had for every position but `pa`
/// and `pb` whose ring has lost no member.
pub open spec fn kept_entries(
    first_rings: Seq<Seq<u32>>,
    nodes: Seq<Node>,
    m0: Map<u64, u32>,
    m: Map<u64, u32>,
    pa: u32,
    pb: u32,
) -> bool {
    forall|q: u64|
        q != pa && q != pb && (q >= first_rings.len() || untouched(first_rings[q as int], nodes))
            ==> (#[trigger] m.contains_key(q) <==> m0.contains_key(q)) && (m0.contains_key(q)
            ==> m[q] == m0[q])
}

/// What holds of the table in the middle of a collapse: away from the two
/// endpoints it is right, and where nothing has happened it is as it was at
/// the start, when it was `table0`.
pub open spec fn follows(
    first_rings: Seq<Seq<u32>>,
    nodes: Seq<Node>,
    table0: Option<Map<u64, u32>>,
    table: Option<Map<u64, u32>>,
    pa: u32,
    pb: u32,
) -> bool {
    match (table0, table) {
        (Some(m0), Some(m)) => tracks_but(nodes, m, pa, pb) && kept_entries(
            first_rings,
            nodes,
            m0,
            m,
            pa,
            pb,
        ),
        (None, None) => true,
        _ => false,
    }
}

/// What holds of the table after a collapse that returned `r`: it is right
/// for the mesh as it is now, it names `r` for the first endpoint and
/// nothing for the second, and where nothing has happened it is as it was
/// before, when it was `table0`.
pub open spec fn brought_up(
    first_rings: Seq<Seq<u32>>,
    nodes: Seq<Node>,
    table0: Option<Map<u64, u32>>,
    table: Option<Map<u64, u32>>,
    pa: u32,
    pb: u32,
    r: Option<u32>,
) -> bool {
    match (table0, table) {
        (Some(m0), Some(m)) => {
            &&& tracks(nodes, m)
            &&& kept_entries(first_rings, nodes, m0, m, pa, pb)
            &&& match r {
                Some(n) => m.contains_key(pa as u64) && m[pa as u64] == n,
                None => !m.contains_key(pa as u64),
            }
            &&& !m.contains_key(pb as u64)
        },
        (None, None) => true,
        _ => false,
    }
}

/// The ring of `c` read from `c` onwards.
pub open spec fn ring_at(nodes: Seq<Node>, rings: Seq<Seq<u32>>, c: u32) -> Seq<u32> {
    let ring = rings[nodes[c as int].position as int];
    rotate(ring, ring.index_of(c))
}

/// The first entry of a list, if it has one.
pub open spec fn head(kept: Seq<u32>) -> Option<u32> {
    if kept.len() == 0 {
        None
    } else {
        Some(kept[0])
    }
}

/// A table that is right but for two positions is as right after a ring has
/// been re-threaded in place.
proof fn lemma_tracks_frame(mid: Seq<Node>, fin: Seq<Node>, m: Map<u64, u32>, pa: u32, pb: u32)
    requires
        tracks_but(mid, m, pa, pb),
        fin.len() == mid.len(),
        forall|i: int|
            0 <= i < mid.len() ==> (#[trigger] fin[i]) == (Node {
                sibling: fin[i].sibling,
                ..mid[i]
            }),
    ensures
        tracks_but(fin, m, pa, pb),
{
    assert forall|i: int| live(fin, i) == live(mid, i) by {
        if 0 <= i < mid.len() {
            assert(fin[i].is_removed == mid[i].is_removed);
        }
    }
    assert forall|q: u64| #[trigger] m.contains_key(q) && q != pa && q != pb implies live(
        fin,
        m[q] as int,
    ) && fin[m[q] as int].position == q by {
        assert(live(mid, m[q] as int));
        assert(fin[m[q] as int].position == mid[m[q] as int].position);
    }
    assert forall|i: int|
        #[trigger] live(fin, i) && fin[i].position != pa && fin[i].position != pb
            implies m.contains_key(fin[i].position as u64) by {
        assert(live(mid, i));
        assert(fin[i].position == mid[i].position);
    }
}

/// One step of the scan that removes a triangle: the triangle of entry
/// `idx` has been flagged, the ring of its third corner `c` re-threaded, and
/// the table's entry for the position of `c` set to the head of that ring.
pub proof fn lemma_scan_removed(
    first: Seq<Node>,
    first_rings: Seq<Seq<u32>>,
    nodes: Seq<Node>,
    mid: Seq<Node>,
    fin: Seq<Node>,
    rings: Seq<Seq<u32>>,
    positions: int,
    normals: Option<int>,
    first_faces: int,
    faces: int,
    pa: u32,
    pb: u32,
    walk: Seq<u32>,
    idx: int,
    c: u32,
    table0: Option<Map<u64, u32>>,
    table: Option<Map<u64, u32>>,
)
    requires
        linked(first, first_rings, positions, normals, first_faces),
        linked(nodes, rings, positions, normals, faces),
        scan_inv(first, first_rings, nodes, rings, pa, pb, walk, idx),
        pa != pb,
        pa < positions,
        pb < positions,
        is_ring(first, walk, pa as int),
        forall|k: int| 0 <= k < walk.len() ==> live(first, #[trigger] walk[k] as int),
        0 <= idx < walk.len(),
        doomed(first, walk[idx] as int, pa, pb),
        flags_face(nodes, mid, walk[idx] as int),
        c == next(first, walk[idx] as int) || c == next(first, next(first, walk[idx] as int)),
        first[c as int].position != pa,
        first[c as int].position != pb,
        relinks(mid, fin, survivors(mid, ring_at(mid, rings, c)), mid[c as int].position),
        follows(first_rings, nodes, table0, table, pa, pb),
    ensures
        scan_inv(
            first,
            first_rings,
            fin,
            rings.update(mid[c as int].position as int, survivors(mid, ring_at(mid, rings, c))),
            pa,
            pb,
            walk,
            idx + 1,
        ),
        follows(
            first_rings,
            fin,
            table0,
            noted_in(table, mid[c as int].position, head(survivors(mid, ring_at(mid, rings, c)))),
            pa,
            pb,
        ),
{
    let s = walk[idx] as int;
    lemma_scan_look(first, first_rings, nodes, rings, positions, normals, faces, pa, pb, walk, idx);
    lemma_flag_face(nodes, mid, rings, s, positions, normals, faces);
    let pc = mid[c as int].position;
    assert(pc == first[c as int].position && pc == nodes[c as int].position && pc < positions);
    let ring_c = rings[pc as int];
    let rot = ring_at(mid, rings, c);
    let kept = survivors(mid, rot);
    let rings2 = rings.update(pc as int, kept);
    assert(ring_c.contains(c));
    lemma_linked_ring(mid, rings, positions, normals, faces - 1, pc as int);
    lemma_rotate_ring(mid, ring_c, pc as int, ring_c.index_of(c));
    lemma_survivors_members(mid, rot);
    assert forall|k: int| 0 <= k < kept.len() implies (#[trigger] kept[k]) < mid.len()
        && mid[kept[k] as int].position == pc by {
        assert(kept.contains(kept[k]));
        assert(rot.contains(kept[k]));
        let m = rot.index_of(kept[k]);
        assert(mid[rot[m] as int].position == pc);
    }
    lemma_relinks_in_place(mid, fin, kept, pc);
    assert(only_removals(first, nodes) && rings_pruned(first_rings, nodes, rings, pa, pb) && scanned(
        first,
        nodes,
        pa,
        pb,
        walk,
        idx,
    ) && spared(first, nodes, pa)) by {
        reveal(scan_inv);
    }
    lemma_scanned_flag(
        first,
        first_rings,
        nodes,
        mid,
        positions,
        normals,
        first_faces,
        pa,
        pb,
        walk,
        idx,
    );
    assert(nodes[s].position == pa);
    lemma_pruned_flag(
        first,
        first_rings,
        nodes,
        mid,
        rings,
        positions,
        normals,
        first_faces,
        faces,
        pa,
        pb,
        pc,
        s,
        ring_c.index_of(c),
    );
    assert forall|k: int| 0 <= k < walk.len() implies 0 <= next(first, #[trigger] walk[k] as int)
        < first.len() && 0 <= next(first, next(first, walk[k] as int)) < first.len() by {
        lemma_linked_node(first, first_rings, positions, normals, first_faces, walk[k] as int);
    }
    assert forall|q: int, k: int| 0 <= q < rings2.len() && 0 <= k < rings2[q].len() implies (
    #[trigger] rings2[q][k]) < mid.len() by {
        if q == pc {
        } else {
            assert(rings[q].contains(rings[q][k]));
            lemma_linked_member(nodes, rings, positions, normals, faces, q, rings[q][k]);
        }
    }
    lemma_scan_frame(first, first_rings, mid, fin, rings2, pa, pb, walk, idx + 1);
    assert(scan_inv(first, first_rings, fin, rings2, pa, pb, walk, idx + 1)) by {
        reveal(scan_inv);
    }
    if let Some(m) = table {
        let m0 = table0->0;
        lemma_tracks_flag(nodes, mid, rings, positions, normals, faces, m, pa, pb, pc, s, kept);
        lemma_tracks_frame(mid, fin, noted(m, pc, head(kept)), pa, pb);
        lemma_linked_node(first, first_rings, positions, normals, first_faces, c as int);
        lemma_kept_step(first_rings, nodes, fin, m0, m, pa, pb, pc, c, head(kept));
    }
}

/// The entries that are kept stay kept when the entry of `pc` is set, after
/// the member `c` of the ring of `pc` has been removed.
proof fn lemma_kept_step(
    first_rings: Seq<Seq<u32>>,
    nodes: Seq<Node>,
    fin: Seq<Node>,
    m0: Map<u64, u32>,
    m: Map<u64, u32>,
    pa: u32,
    pb: u32,
    pc: u32,
    c: u32,
    first: Option<u32>,
)
    requires
        kept_entries(first_rings, nodes, m0, m, pa, pb),
        fin.len() == nodes.len(),
        forall|i: int| 0 <= i < nodes.len() && (#[trigger] nodes[i]).is_removed ==> fin[i].is_removed,
        pc < first_rings.len(),
        first_rings[pc as int].contains(c),
        !live(fin, c as int),
    ensures
        kept_entries(first_rings, fin, m0, noted(m, pc, first), pa, pb),
{
    let m2 = noted(m, pc, first);
    assert forall|q: u64|
        q != pa && q != pb && (q >= first_rings.len() || untouched(first_rings[q as int], fin))
            implies (#[trigger] m2.contains_key(q) <==> m0.contains_key(q)) && (m0.contains_key(q)
            ==> m2[q] == m0[q]) by {
        if q == pc {
            let k = first_rings[pc as int].index_of(c);
            assert(live(fin, first_rings[pc as int][k] as int));
        } else {
            if q < first_rings.len() {
                lemma_untouched_before(first_rings, nodes, fin, q);
            }
            assert(m.contains_key(q) <==> m0.contains_key(q));
        }
    }
}

/// A ring that has lost no member now had lost none before.
proof fn lemma_untouched_before(first_rings: Seq<Seq<u32>>, nodes: Seq<Node>, fin: Seq<Node>, q: u64)
    requires
        fin.len() == nodes.len(),
        forall|i: int| 0 <= i < nodes.len() && (#[trigger] nodes[i]).is_removed ==> fin[i].is_removed,
        q < first_rings.len(),
        untouched(first_rings[q as int], fin),
    ensures
        untouched(first_rings[q as int], nodes),
{
    let ring = first_rings[q as int];
    assert forall|k: int| 0 <= k < ring.len() implies live(nodes, #[trigger] ring[k] as int) by {
        assert(live(fin, ring[k] as int));
        assert(nodes[ring[k] as int].is_removed ==> fin[ring[k] as int].is_removed);
    }
}

/// Once the whole ring has been scanned, a corner that was live at the start
/// is gone exactly if its triangle spanned the edge.
proof fn lemma_fate(
    first: Seq<Node>,
    first_rings: Seq<Seq<u32>>,
    nodes: Seq<Node>,
    positions: int,
    normals: Option<int>,
    first_faces: int,
    pa: u32,
    pb: u32,
    walk: Seq<u32>,
    i: int,
)
    requires
        linked(first, first_rings, positions, normals, first_faces),
        only_removals(first, nodes),
        scanned(first, nodes, pa, pb, walk, walk.len() as int),
        spared(first, nodes, pa),
        pa != pb,
        pa < positions,
        forall|x: u32| first_rings[pa as int].contains(x) <==> walk.contains(x),
        live(first, i),
    ensures
        nodes[i].is_removed == doomed(first, i, pa, pb),
{
    lemma_linked_node(first, first_rings, positions, normals, first_faces, i);
    let i1 = next(first, i);
    let i2 = next(first, i1);
    lemma_linked_node(first, first_rings, positions, normals, first_faces, i1);
    lemma_linked_node(first, first_rings, positions, normals, first_faces, i2);
    assert(next(first, i2) == i);
    let at = if first[i].position == pa {
        i
    } else if first[i1].position == pa {
        i1
    } else {
        i2
    };
    if first[at].position == pa {
        assert(live(first, at));
        assert(first_rings[pa as int].contains(at as u32));
        assert(walk.contains(at as u32));
        let k = walk.index_of(at as u32);
        assert(walk[k] == at);
        let t = walk[k] as int;
        let gone = doomed(first, t, pa, pb);
        assert(nodes[t].is_removed == gone);
        assert(nodes[next(first, t)].is_removed == gone);
        assert(nodes[next(first, next(first, t))].is_removed == gone);
        assert(doomed(first, at, pa, pb) == doomed(first, i, pa, pb));
    } else {
        assert(live(nodes, i));
    }
}

/// Where the scan leaves the two endpoints: their rings are as they were at
/// the start, and a node that was live at the start still has its position.
pub proof fn lemma_scan_end(
    first: Seq<Node>,
    first_rings: Seq<Seq<u32>>,
    nodes: Seq<Node>,
    rings: Seq<Seq<u32>>,
    positions: int,
    normals: Option<int>,
    first_faces: int,
    pa: u32,
    pb: u32,
    walk: Seq<u32>,
    idx: int,
    a: u32,
    b: u32,
)
    requires
        linked(first, first_rings, positions, normals, first_faces),
        scan_inv(first, first_rings, nodes, rings, pa, pb, walk, idx),
        live(first, a as int),
        live(first, b as int),
        first[a as int].position == pa,
        first[b as int].position == pb,
    ensures
        nodes.len() == first.len(),
        nodes[a as int].position == pa,
        nodes[b as int].position == pb,
        rings[pa as int] == first_rings[pa as int],
        rings[pb as int] == first_rings[pb as int],
        rings[pa as int].contains(a),
        rings[pb as int].contains(b),
        rings.len() == positions,
        pa < positions,
        pb < positions,
{
    reveal(scan_inv);
    lemma_linked_node(first, first_rings, positions, normals, first_faces, a as int);
    lemma_linked_node(first, first_rings, positions, normals, first_faces, b as int);
    assert(nodes[a as int].position == first[a as int].position);
    assert(nodes[b as int].position == first[b as int].position);
}

/// Of the nodes after the merge: exactly the corners of the triangles that
/// spanned the edge are gone, and what sat at `pb` now sits at `pa`.
proof fn lemma_merge_nodes(
    first: Seq<Node>,
    first_rings: Seq<Seq<u32>>,
    nodes: Seq<Node>,
    fin: Seq<Node>,
    positions: int,
    normals: Option<int>,
    first_faces: int,
    pa: u32,
    pb: u32,
    walk: Seq<u32>,
    kept: Seq<u32>,
)
    requires
        linked(first, first_rings, positions, normals, first_faces),
        only_removals(first, nodes),
        scanned(first, nodes, pa, pb, walk, walk.len() as int),
        spared(first, nodes, pa),
        pa != pb,
        pa < positions,
        forall|x: u32| first_rings[pa as int].contains(x) <==> walk.contains(x),
        same_faces(nodes, fin),
        relinks(nodes, fin, kept, pa),
        forall|x: u32|
            kept.contains(x) <==> (live(nodes, x as int) && (nodes[x as int].position == pa
                || nodes[x as int].position == pb)),
    ensures
        collapsed(first, fin, pa, pb),
{
    lemma_linked_ring(first, first_rings, positions, normals, first_faces, pa as int);
    assert(first.len() <= u32::MAX) by {
        reveal(linked);
    }
    assert forall|i: int| 0 <= i < first.len() implies {
        &&& (#[trigger] fin[i]).relative == first[i].relative
        &&& fin[i].normal == first[i].normal
        &&& fin[i].is_removed == (first[i].is_removed || doomed(first, i, pa, pb))
    } by {
        assert(nodes[i].is_removed == fin[i].is_removed);
        assert(nodes[i].relative == first[i].relative);
        if kept.contains(i as u32) {
            let k = kept.index_of(i as u32);
            assert(fin[kept[k] as int].position == pa);
        } else {
            assert(fin[i] == nodes[i]);
        }
        if live(first, i) {
            lemma_fate(first, first_rings, nodes, positions, normals, first_faces, pa, pb, walk, i);
        }
    }
    assert forall|i: int| #[trigger] live(fin, i) implies fin[i].position == (if first[i].position
        == pb {
        pa
    } else {
        first[i].position
    }) by {
        assert(nodes[i].is_removed == fin[i].is_removed);
        assert(live(nodes, i));
        assert(nodes[i].position == first[i].position);
        if kept.contains(i as u32) {
            let k = kept.index_of(i as u32);
            assert(fin[kept[k] as int].position == pa);
        } else {
            assert(fin[i] == nodes[i]);
        }
    }
}

/// Of the rings after the merge: none holds a removed node, and every ring
/// but those of the endpoints holds what is left of its members.
proof fn lemma_merge_rings(
    first: Seq<Node>,
    first_rings: Seq<Seq<u32>>,
    nodes: Seq<Node>,
    fin: Seq<Node>,
    rings: Seq<Seq<u32>>,
    pa: u32,
    pb: u32,
    kept: Seq<u32>,
)
    requires
        rings_pruned(first_rings, nodes, rings, pa, pb),
        pa != pb,
        pa < rings.len(),
        pb < rings.len(),
        same_faces(nodes, fin),
        forall|q: int, k: int|
            0 <= q < rings.len() && 0 <= k < rings[q].len() ==> (#[trigger] rings[q][k])
                < nodes.len(),
        forall|k: int| 0 <= k < kept.len() ==> live(fin, #[trigger] kept[k] as int),
    ensures
        clean(fin, merged_rings(rings, kept, pa, pb, pa)),
        forall|q: int, x: u32|
            0 <= q < rings.len() && q != pa && q != pb ==> (#[trigger] merged_rings(
                rings,
                kept,
                pa,
                pb,
                pa,
            )[q].contains(x) <==> (first_rings[q].contains(x) && live(fin, x as int))),
        forall|q: int|
            0 <= q < rings.len() && q != pa && q != pb ==> left_of(
                first_rings[q],
                fin,
                #[trigger] merged_rings(rings, kept, pa, pb, pa)[q],
            ),
{
    let rings2 = merged_rings(rings, kept, pa, pb, pa);
    assert forall|q: int| 0 <= q < rings.len() && q != pa && q != pb implies left_of(
        first_rings[q],
        fin,
        #[trigger] rings2[q],
    ) by {
        let ring = first_rings[q];
        assert(left_of(ring, nodes, rings[q]));
        assert forall|k: int| 0 <= k < ring.len() && ring[k] < nodes.len() implies (
        #[trigger] nodes[ring[k] as int]).is_removed == fin[ring[k] as int].is_removed by {}
        lemma_left_of_frame(ring, nodes, fin, rings[q]);
    }
    assert forall|p: int, k: int| 0 <= p < rings2.len() && 0 <= k < rings2[p].len() implies live(
        fin,
        #[trigger] rings2[p][k] as int,
    ) by {
        if p == pa {
        } else if p == pb {
        } else {
            let x = rings[p][k];
            assert(live(nodes, x as int));
            assert(nodes[x as int].is_removed == fin[x as int].is_removed);
        }
    }
    assert forall|q: int, x: u32| 0 <= q < rings.len() && q != pa && q != pb implies (
    #[trigger] rings2[q].contains(x) <==> (first_rings[q].contains(x) && live(fin, x as int))) by {
        assert(rings[q].contains(x) <==> (first_rings[q].contains(x) && live(nodes, x as int)));
        if x < nodes.len() {
            assert(nodes[x as int].is_removed == fin[x as int].is_removed);
        }
    }
}

/// What the merge of the two rings leaves, after the scan: a well-formed
/// mesh from which exactly the triangles that spanned the edge are gone,
/// with what sat at `pb` now at `pa`.
pub proof fn lemma_scan_finish(
    first: Seq<Node>,
    first_rings: Seq<Seq<u32>>,
    nodes: Seq<Node>,
    fin: Seq<Node>,
    rings: Seq<Seq<u32>>,
    positions: int,
    normals: Option<int>,
    first_faces: int,
    faces: int,
    pa: u32,
    pb: u32,
    walk: Seq<u32>,
    kept: Seq<u32>,
)
    requires
        linked(first, first_rings, positions, normals, first_faces),
        linked(nodes, rings, positions, normals, faces),
        scan_inv(first, first_rings, nodes, rings, pa, pb, walk, walk.len() as int),
        pa != pb,
        pa < positions,
        pb < positions,
        forall|x: u32| first_rings[pa as int].contains(x) <==> walk.contains(x),
        same_faces(nodes, fin),
        relinks(nodes, fin, kept, pa),
        forall|x: u32|
            kept.contains(x) <==> (live(nodes, x as int) && (nodes[x as int].position == pa
                || nodes[x as int].position == pb)),
        forall|k: int| 0 <= k < kept.len() ==> live(fin, #[trigger] kept[k] as int),
    ensures
        clean(fin, merged_rings(rings, kept, pa, pb, pa)),
        collapsed(first, fin, pa, pb),
        forall|q: int, x: u32|
            0 <= q < rings.len() && q != pa && q != pb ==> (#[trigger] merged_rings(
                rings,
                kept,
                pa,
                pb,
                pa,
            )[q].contains(x) <==> (first_rings[q].contains(x) && live(fin, x as int))),
        forall|q: int|
            0 <= q < rings.len() && q != pa && q != pb ==> left_of(
                first_rings[q],
                fin,
                #[trigger] merged_rings(rings, kept, pa, pb, pa)[q],
            ),
{
    assert(only_removals(first, nodes) && rings_pruned(first_rings, nodes, rings, pa, pb) && scanned(
        first,
        nodes,
        pa,
        pb,
        walk,
        walk.len() as int,
    ) && spared(first, nodes, pa)) by {
        reveal(scan_inv);
    }
    lemma_linked_ring(nodes, rings, positions, normals, faces, pa as int);
    assert forall|q: int, k: int| 0 <= q < rings.len() && 0 <= k < rings[q].len() implies (
    #[trigger] rings[q][k]) < nodes.len() by {
        assert(rings[q].contains(rings[q][k]));
        lemma_linked_member(nodes, rings, positions, normals, faces, q, rings[q][k]);
    }
    lemma_merge_nodes(
        first,
        first_rings,
        nodes,
        fin,
        positions,
        normals,
        first_faces,
        pa,
        pb,
        walk,
        kept,
    );
    lemma_merge_rings(first, first_rings, nodes, fin, rings, pa, pb, kept);
}

/// The table is right again once the merged ring has its entry at `pa` and
/// `pb` has none.
pub proof fn lemma_tracks_finish(
    nodes: Seq<Node>,
    fin: Seq<Node>,
    rings2: Seq<Seq<u32>>,
    positions: int,
    normals: Option<int>,
    faces: int,
    m: Map<u64, u32>,
    pa: u32,
    pb: u32,
    kept: Seq<u32>,
)
    requires
        linked(fin, rings2, positions, normals, faces),
        tracks_but(nodes, m, pa, pb),
        pa != pb,
        pa < positions,
        pb < positions,
        rings2[pa as int] == kept,
        rings2[pb as int] == Seq::<u32>::empty(),
        same_faces(nodes, fin),
        relinks(nodes, fin, kept, pa),
        forall|x: u32|
            kept.contains(x) <==> (live(nodes, x as int) && (nodes[x as int].position == pa
                || nodes[x as int].position == pb)),
        forall|k: int| 0 <= k < kept.len() ==> live(fin, #[trigger] kept[k] as int),
    ensures
        tracks(fin, noted(m, pa, head(kept)).remove(pb as u64)),
{
    let m2 = noted(m, pa, head(kept)).remove(pb as u64);
    assert forall|i: int| 0 <= i < nodes.len() implies live(fin, i) == live(nodes, i) by {
        assert(nodes[i].is_removed == fin[i].is_removed);
    }
    assert forall|q: u64| #[trigger] m2.contains_key(q) implies live(fin, m2[q] as int)
        && fin[m2[q] as int].position == q by {
        if q == pa {
            assert(kept.contains(kept[0]));
            lemma_linked_member(fin, rings2, positions, normals, faces, pa as int, kept[0]);
        } else {
            assert(m.contains_key(q));
            let x = m[q] as int;
            assert(live(nodes, x));
            assert(!kept.contains(x as u32));
            assert(fin[x] == nodes[x]);
        }
    }
    assert forall|i: int| #[trigger] live(fin, i) implies m2.contains_key(
        fin[i].position as u64,
    ) by {
        lemma_linked_node(fin, rings2, positions, normals, faces, i);
        assert(live(nodes, i));
        if kept.contains(i as u32) {
            let k = kept.index_of(i as u32);
            assert(fin[kept[k] as int].position == pa);
        } else {
            assert(fin[i] == nodes[i]);
        }
    }
}

/// What an edge collapse leaves of a mesh with the nodes `before` and the
/// rings `rings0`, when the vertex of node `b` has been merged into that of
/// node `a`: the nodes `after`, the rings `rings`, and the result `r`.
pub open spec fn collapse_of(
    before: Seq<Node>,
    rings0: Seq<Seq<u32>>,
    after: Seq<Node>,
    rings: Seq<Seq<u32>>,
    a: u32,
    b: u32,
    r: Option<u32>,
) -> bool {
    let pa = before[a as int].position;
    let pb = before[b as int].position;
    &&& collapsed(before, after, pa, pb)
    &&& rings[pa as int] == survivors(after, ring_at(before, rings0, a)) + survivors(
        after,
        ring_at(before, rings0, b),
    )
    &&& rings[pb as int] == Seq::<u32>::empty()
    &&& forall|q: int, x: u32|
        0 <= q < rings.len() && q != pa && q != pb ==> (#[trigger] rings[q].contains(x) <==> (
        rings0[q].contains(x) && live(after, x as int)))
    &&& forall|q: int|
        0 <= q < rings.len() && q != pa && q != pb ==> left_of(rings0[q], after, #[trigger] rings[q])
    &&& r == head(rings[pa as int])
}

/// The end of an edge collapse: after the scan, the two rings have been
/// merged and the table has been given its entries for the two endpoints.
pub proof fn lemma_collapse_done(
    first: Seq<Node>,
    first_rings: Seq<Seq<u32>>,
    nodes: Seq<Node>,
    fin: Seq<Node>,
    rings: Seq<Seq<u32>>,
    positions: int,
    normals: Option<int>,
    first_faces: int,
    faces: int,
    a: u32,
    b: u32,
    walk: Seq<u32>,
    kept: Seq<u32>,
    table0: Option<Map<u64, u32>>,
    table: Option<Map<u64, u32>>,
)
    requires
        linked(first, first_rings, positions, normals, first_faces),
        linked(nodes, rings, positions, normals, faces),
        live(first, a as int),
        live(first, b as int),
        first[a as int].position != first[b as int].position,
        scan_inv(
            first,
            first_rings,
            nodes,
            rings,
            first[a as int].position,
            first[b as int].position,
            walk,
            walk.len() as int,
        ),
        forall|x: u32| first_rings[first[a as int].position as int].contains(x) <==> walk.contains(x),
        kept == survivors(nodes, ring_at(nodes, rings, a)) + survivors(nodes, ring_at(nodes, rings, b)),
        same_faces(nodes, fin),
        relinks(nodes, fin, kept, first[a as int].position),
        linked(
            fin,
            merged_rings(
                rings,
                kept,
                first[a as int].position,
                first[b as int].position,
                first[a as int].position,
            ),
            positions,
            normals,
            faces,
        ),
        forall|x: u32|
            kept.contains(x) <==> (live(nodes, x as int) && (nodes[x as int].position
                == first[a as int].position || nodes[x as int].position
                == first[b as int].position)),
        forall|k: int| 0 <= k < kept.len() ==> live(fin, #[trigger] kept[k] as int),
        follows(first_rings, nodes, table0, table, first[a as int].position, first[b as int].position),
    ensures
        clean(
            fin,
            merged_rings(
                rings,
                kept,
                first[a as int].position,
                first[b as int].position,
                first[a as int].position,
            ),
        ),
        collapse_of(
            first,
            first_rings,
            fin,
            merged_rings(
                rings,
                kept,
                first[a as int].position,
                first[b as int].position,
                first[a as int].position,
            ),
            a,
            b,
            head(kept),
        ),
        brought_up(
            first_rings,
            fin,
            table0,
            noted_in(
                noted_in(table, first[a as int].position, head(kept)),
                first[b as int].position,
                None,
            ),
            first[a as int].position,
            first[b as int].position,
            head(kept),
        ),
{
    let pa = first[a as int].position;
    let pb = first[b as int].position;
    let rings2 = merged_rings(rings, kept, pa, pb, pa);
    lemma_scan_end(
        first,
        first_rings,
        nodes,
        rings,
        positions,
        normals,
        first_faces,
        pa,
        pb,
        walk,
        walk.len() as int,
        a,
        b,
    );
    lemma_scan_finish(
        first,
        first_rings,
        nodes,
        fin,
        rings,
        positions,
        normals,
        first_faces,
        faces,
        pa,
        pb,
        walk,
        kept,
    );
    let ra = ring_at(nodes, rings, a);
    let rb = ring_at(nodes, rings, b);
    assert(ra == ring_at(first, first_rings, a));
    assert(rb == ring_at(first, first_rings, b));
    super::topology::lemma_survivors_frame(nodes, fin, ra);
    super::topology::lemma_survivors_frame(nodes, fin, rb);
    assert(rings2[pa as int] == kept);
    assert(rings2[pb as int] == Seq::<u32>::empty());
    if let Some(m) = table {
        lemma_tracks_finish(nodes, fin, rings2, positions, normals, faces, m, pa, pb, kept);
        lemma_kept_done(first_rings, nodes, fin, table0->0, m, pa, pb, head(kept));
    }
}

/// The entries that are kept stay kept when the table gets its entries for
/// the two endpoints.
proof fn lemma_kept_done(
    first_rings: Seq<Seq<u32>>,
    nodes: Seq<Node>,
    fin: Seq<Node>,
    m0: Map<u64, u32>,
    m: Map<u64, u32>,
    pa: u32,
    pb: u32,
    first: Option<u32>,
)
    requires
        kept_entries(first_rings, nodes, m0, m, pa, pb),
        same_faces(nodes, fin),
        pa != pb,
    ensures
        kept_entries(first_rings, fin, m0, noted(noted(m, pa, first), pb, None), pa, pb),
        noted(noted(m, pa, first), pb, None) == noted(m, pa, first).remove(pb as u64),
        !noted(noted(m, pa, first), pb, None).contains_key(pb as u64),
        match first {
            Some(n) => noted(noted(m, pa, first), pb, None).contains_key(pa as u64) && noted(
                noted(m, pa, first),
                pb,
                None,
            )[pa as u64] == n,
            None => !noted(noted(m, pa, first), pb, None).contains_key(pa as u64),
        },
{
    let m2 = noted(noted(m, pa, first), pb, None);
    assert forall|i: int| 0 <= i < nodes.len() && (#[trigger] nodes[i]).is_removed implies fin[i].is_removed by {
        assert(nodes[i].is_removed == fin[i].is_removed);
    }
    assert forall|q: u64|
        q != pa && q != pb && (q >= first_rings.len() || untouched(first_rings[q as int], fin))
            implies (#[trigger] m2.contains_key(q) <==> m0.contains_key(q)) && (m0.contains_key(q)
            ==> m2[q] == m0[q]) by {
        if q < first_rings.len() {
            lemma_untouched_before(first_rings, nodes, fin, q);
        }
        assert(m.contains_key(q) <==> m0.contains_key(q));
    }
}

/// A table that is right for a mesh follows it at the start of a collapse.
pub proof fn lemma_follows_start(
    first_rings: Seq<Seq<u32>>,
    nodes: Seq<Node>,
    table: Option<Map<u64, u32>>,
    pa: u32,
    pb: u32,
)
    requires
        table matches Some(m) ==> tracks(nodes, m),
    ensures
        follows(first_rings, nodes, table, table, pa, pb),
{
}

} // verus!
