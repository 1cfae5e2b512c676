//! The mathematical model of a corner-linked mesh: what it means for the
//! `relative` links to form triangles and for the `sibling` links to form one
//! ring per vertex.

use vstd::prelude::*;
use vstd::set_lib::{lemma_int_range, lemma_len_subset, set_int_range};
use super::node::Node;

verus! {

/// `i` indexes a node that has not been removed.
pub open spec fn live(nodes: Seq<Node>, i: int) -> bool {
    0 <= i < nodes.len() && !nodes[i].is_removed
}

/// The three corners reached from `i` by `relative` are live, distinct, and
/// lead back to `i`.
pub open spec fn face_closed(nodes: Seq<Node>, i: int) -> bool {
    let a = nodes[i].relative as int;
    let b = nodes[a].relative as int;
    &&& live(nodes, a)
    &&& live(nodes, b)
    &&& nodes[b].relative == i
    &&& a != i
}

/// `i` is the lowest-numbered corner of its triangle.
pub open spec fn is_face_start(nodes: Seq<Node>, i: int) -> bool {
    &&& i < nodes[i].relative < nodes.len()
    &&& i < nodes[nodes[i].relative as int].relative
}

/// The number of live triangles whose lowest-numbered corner is below `n`.
pub open spec fn face_total(nodes: Seq<Node>, n: int) -> nat
    decreases n,
{
    if n <= 0 {
        0
    } else {
        let rest = face_total(nodes, n - 1);
        if live(nodes, n - 1) && is_face_start(nodes, n - 1) {
            rest + 1
        } else {
            rest
        }
    }
}

/// The index that follows `k` in a cyclic list of `len` entries.
pub open spec fn succ(k: int, len: int) -> int {
    if k + 1 < len {
        k + 1
    } else {
        0
    }
}

/// `r` lists, without repetition, nodes at position `p`, each linked by
/// `sibling` to the next and the last to the first.
pub open spec fn is_ring(nodes: Seq<Node>, r: Seq<u32>, p: int) -> bool {
    &&& r.no_duplicates()
    &&& forall|k: int| 0 <= k < r.len() ==> (#[trigger] r[k]) < nodes.len()
    &&& forall|k: int| 0 <= k < r.len() ==> (#[trigger] nodes[r[k] as int]).position == p
    &&& forall|k: int|
        0 <= k < r.len() ==> (#[trigger] nodes[r[k] as int]).sibling == r[succ(k, r.len() as int)]
}

/// The cyclic list `r` read from its entry `k` onwards.
pub open spec fn rotate(r: Seq<u32>, k: int) -> Seq<u32> {
    r.subrange(k, r.len() as int) + r.subrange(0, k)
}

/// What a live node must satisfy on its own.
pub open spec fn node_ok(nodes: Seq<Node>, i: int, positions: int, normals: Option<int>) -> bool {
    &&& face_closed(nodes, i)
    &&& nodes[i].position < positions
    &&& normals matches Some(n) ==> nodes[i].normal < n
}

/// Every live node is a corner of a live triangle and has its indices in
/// range.
pub open spec fn nodes_ok(nodes: Seq<Node>, positions: int, normals: Option<int>) -> bool {
    forall|i: int| #[trigger] live(nodes, i) ==> node_ok(nodes, i, positions, normals)
}

/// Every position has a ring, which is a cycle of `sibling` links.
pub open spec fn rings_ok(nodes: Seq<Node>, rings: Seq<Seq<u32>>, positions: int) -> bool {
    &&& rings.len() == positions
    &&& forall|p: int| 0 <= p < positions ==> is_ring(nodes, #[trigger] rings[p], p)
}

/// Every live node is a member of the ring of its position.
pub open spec fn members_ok(nodes: Seq<Node>, rings: Seq<Seq<u32>>) -> bool {
    forall|i: int| #[trigger] live(nodes, i) ==> rings[nodes[i].position as int].contains(i as u32)
}

/// The invariant that holds of a mesh at every moment, also in the middle of
/// an edge collapse: every live node is a corner of a live triangle and a
/// member of the ring of its position, every ring is a cycle of `sibling`
/// links, and `faces` counts the live triangles. A ring may still hold
/// removed nodes.
#[verifier::opaque]
pub open spec fn linked(
    nodes: Seq<Node>,
    rings: Seq<Seq<u32>>,
    positions: int,
    normals: Option<int>,
    faces: int,
) -> bool {
    &&& nodes.len() <= u32::MAX
    &&& faces == face_total(nodes, nodes.len() as int)
    &&& nodes_ok(nodes, positions, normals)
    &&& rings_ok(nodes, rings, positions)
    &&& members_ok(nodes, rings)
}

/// A linked mesh, taken apart.
pub proof fn lemma_linked_parts(
    nodes: Seq<Node>,
    rings: Seq<Seq<u32>>,
    positions: int,
    normals: Option<int>,
    faces: int,
)
    requires
        linked(nodes, rings, positions, normals, faces),
    ensures
        nodes.len() <= u32::MAX,
        faces == face_total(nodes, nodes.len() as int),
        nodes_ok(nodes, positions, normals),
        rings_ok(nodes, rings, positions),
        members_ok(nodes, rings),
{
    reveal(linked);
}

/// A linked mesh, put together.
pub proof fn lemma_linked_whole(
    nodes: Seq<Node>,
    rings: Seq<Seq<u32>>,
    positions: int,
    normals: Option<int>,
    faces: int,
)
    requires
        nodes.len() <= u32::MAX,
        faces == face_total(nodes, nodes.len() as int),
        nodes_ok(nodes, positions, normals),
        rings_ok(nodes, rings, positions),
        members_ok(nodes, rings),
    ensures
        linked(nodes, rings, positions, normals, faces),
{
    reveal(linked);
}

/// What a linked mesh says of one position: its ring is a cycle.
pub proof fn lemma_linked_ring(
    nodes: Seq<Node>,
    rings: Seq<Seq<u32>>,
    positions: int,
    normals: Option<int>,
    faces: int,
    p: int,
)
    requires
        linked(nodes, rings, positions, normals, faces),
        0 <= p < positions,
    ensures
        is_ring(nodes, rings[p], p),
        rings.len() == positions,
{
    reveal(linked);
}

/// What a linked mesh says of one live node: its triangle is closed, its
/// indices are in range, and it is a member of the ring of its position.
pub proof fn lemma_linked_node(
    nodes: Seq<Node>,
    rings: Seq<Seq<u32>>,
    positions: int,
    normals: Option<int>,
    faces: int,
    i: int,
)
    requires
        linked(nodes, rings, positions, normals, faces),
        live(nodes, i),
    ensures
        node_ok(nodes, i, positions, normals),
        rings[nodes[i].position as int].contains(i as u32),
        rings.len() == positions,
        nodes.len() <= u32::MAX,
        live(nodes, nodes[i].relative as int),
        live(nodes, nodes[nodes[i].relative as int].relative as int),
{
    reveal(linked);
}

/// A member of a ring of a linked mesh sits at the ring's position.
pub proof fn lemma_linked_member(
    nodes: Seq<Node>,
    rings: Seq<Seq<u32>>,
    positions: int,
    normals: Option<int>,
    faces: int,
    p: int,
    x: u32,
)
    requires
        linked(nodes, rings, positions, normals, faces),
        0 <= p < positions,
        rings[p].contains(x),
    ensures
        x < nodes.len(),
        nodes[x as int].position == p,
{
    reveal(linked);
    let k = rings[p].index_of(x);
    assert(is_ring(nodes, rings[p], p));
    assert(nodes[rings[p][k] as int].position == p);
}

/// A ring has no more entries than there are nodes.
pub proof fn lemma_ring_bound(nodes: Seq<Node>, r: Seq<u32>, p: int)
    requires
        is_ring(nodes, r, p),
    ensures
        r.len() <= nodes.len(),
{
    let s = Seq::new(r.len(), |k: int| r[k] as int);
    assert(s.no_duplicates());
    s.unique_seq_to_set();
    lemma_int_range(0, nodes.len() as int);
    assert forall|x: int| s.to_set().contains(x) implies set_int_range(
        0,
        nodes.len() as int,
    ).contains(x) by {
        let k = s.index_of(x);
        assert(r[k] < nodes.len());
    }
    lemma_len_subset(s.to_set(), set_int_range(0, nodes.len() as int));
}

/// No ring holds a removed node.
pub open spec fn clean(nodes: Seq<Node>, rings: Seq<Seq<u32>>) -> bool {
    forall|p: int, k: int|
        0 <= p < rings.len() && 0 <= k < rings[p].len() ==> live(nodes, #[trigger] rings[p][k] as int)
}

/// Reading a ring from one of its entries onwards gives a ring again, with
/// the same members.
pub proof fn lemma_rotate_ring(nodes: Seq<Node>, r: Seq<u32>, p: int, k: int)
    requires
        is_ring(nodes, r, p),
        0 <= k < r.len(),
    ensures
        is_ring(nodes, rotate(r, k), p),
        rotate(r, k).len() == r.len(),
        rotate(r, k)[0] == r[k],
        forall|x: u32| r.contains(x) <==> rotate(r, k).contains(x),
{
    let t = rotate(r, k);
    let len = r.len() as int;
    assert(t.len() == len);
    assert forall|j: int| 0 <= j < len implies #[trigger] t[j] == r[if k + j < len {
        k + j
    } else {
        k + j - len
    }] by {}
    assert forall|x: u32| r.contains(x) <==> t.contains(x) by {
        if r.contains(x) {
            let m = r.index_of(x);
            let j = if m >= k {
                m - k
            } else {
                m - k + len
            };
            assert(t[j] == x);
        }
        if t.contains(x) {
            let j = t.index_of(x);
            let m = if k + j < len {
                k + j
            } else {
                k + j - len
            };
            assert(r[m] == x);
        }
    }
    assert forall|j: int| 0 <= j < t.len() implies (#[trigger] nodes[t[j] as int]).sibling == t[succ(
        j,
        t.len() as int,
    )] by {
        let m = if k + j < len {
            k + j
        } else {
            k + j - len
        };
        assert(t[j] == r[m]);
        assert(nodes[r[m] as int].sibling == r[succ(m, len)]);
    }
    assert forall|j: int| 0 <= j < t.len() implies (#[trigger] nodes[t[j] as int]).position == p by {
        let m = if k + j < len {
            k + j
        } else {
            k + j - len
        };
        assert(t[j] == r[m]);
        assert(nodes[r[m] as int].position == p);
    }
    assert forall|j: int| 0 <= j < t.len() implies (#[trigger] t[j]) < nodes.len() by {
        let m = if k + j < len {
            k + j
        } else {
            k + j - len
        };
        assert(t[j] == r[m]);
    }
    assert forall|i: int, j: int| 0 <= i < t.len() && 0 <= j < t.len() && i != j implies t[i]
        != t[j] by {
        let mi = if k + i < len {
            k + i
        } else {
            k + i - len
        };
        let mj = if k + j < len {
            k + j
        } else {
            k + j - len
        };
        assert(t[i] == r[mi]);
        assert(t[j] == r[mj]);
    }
}

/// The entries of `r` that are live in `nodes`, in the order of `r`.
pub open spec fn survivors(nodes: Seq<Node>, r: Seq<u32>) -> Seq<u32>
    decreases r.len(),
{
    if r.len() == 0 {
        Seq::empty()
    } else {
        let rest = survivors(nodes, r.drop_last());
        if live(nodes, r.last() as int) {
            rest.push(r.last())
        } else {
            rest
        }
    }
}

/// `after` is `before` with the nodes of `kept` threaded into one cycle at
/// position `p`, in the order of `kept`; every other node is untouched.
pub open spec fn relinks(before: Seq<Node>, after: Seq<Node>, kept: Seq<u32>, p: u32) -> bool {
    &&& after.len() == before.len()
    &&& forall|k: int|
        0 <= k < kept.len() ==> #[trigger] after[kept[k] as int] == (Node {
            sibling: kept[succ(k, kept.len() as int)],
            position: p,
            ..before[kept[k] as int]
        })
    &&& forall|i: int|
        0 <= i < before.len() && !kept.contains(i as u32) ==> #[trigger] after[i] == before[i]
}

/// The rings after the live corners of `pa` and of `pb` have been threaded
/// into the one ring `kept` at `p`, which is `pa` or `pb`: the other of the
/// two is left without a ring.
pub open spec fn merged_rings(rings: Seq<Seq<u32>>, kept: Seq<u32>, pa: u32, pb: u32, p: u32) -> Seq<
    Seq<u32>,
> {
    rings.update(pa as int, Seq::empty()).update(pb as int, Seq::empty()).update(p as int, kept)
}

/// The two node arrays agree on the `relative` link and the removal flag of
/// every node.
pub open spec fn same_faces(a: Seq<Node>, b: Seq<Node>) -> bool {
    &&& a.len() == b.len()
    &&& forall|i: int|
        0 <= i < a.len() ==> (#[trigger] a[i]).relative == b[i].relative && a[i].is_removed
            == b[i].is_removed
}

/// The survivors of a list with one more entry at its end.
pub proof fn lemma_survivors_push(nodes: Seq<Node>, r: Seq<u32>, x: u32)
    ensures
        survivors(nodes, r.push(x)) == if live(nodes, x as int) {
            survivors(nodes, r).push(x)
        } else {
            survivors(nodes, r)
        },
{
    assert(r.push(x).drop_last() =~= r);
}

/// A node is among the survivors of `r` exactly if it is in `r` and live.
pub proof fn lemma_survivors_members(nodes: Seq<Node>, r: Seq<u32>)
    ensures
        forall|x: u32|
            survivors(nodes, r).contains(x) <==> (r.contains(x) && live(nodes, x as int)),
        survivors(nodes, r).len() <= r.len(),
    decreases r.len(),
{
    if r.len() > 0 {
        let d = r.drop_last();
        lemma_survivors_members(nodes, d);
        let sd = survivors(nodes, d);
        let s = survivors(nodes, r);
        assert forall|x: u32| s.contains(x) <==> (r.contains(x) && live(nodes, x as int)) by {
            if s.contains(x) {
                let j = s.index_of(x);
                if j < sd.len() {
                    assert(sd[j] == x);
                    assert(sd.contains(x));
                    assert(d.contains(x));
                    let m = d.index_of(x);
                    assert(r[m] == x);
                } else {
                    assert(r[r.len() - 1] == x);
                }
            }
            if r.contains(x) && live(nodes, x as int) {
                let m = r.index_of(x);
                if m < d.len() {
                    assert(d[m] == x);
                    assert(d.contains(x));
                    let j = sd.index_of(x);
                    assert(s[j] == x);
                } else {
                    assert(s[s.len() - 1] == x);
                }
            }
        }
    }
}

/// Survivors of a list without repetition are without repetition.
pub proof fn lemma_survivors_distinct(nodes: Seq<Node>, r: Seq<u32>)
    requires
        r.no_duplicates(),
    ensures
        survivors(nodes, r).no_duplicates(),
    decreases r.len(),
{
    if r.len() > 0 {
        let d = r.drop_last();
        lemma_survivors_distinct(nodes, d);
        lemma_survivors_members(nodes, d);
        let sd = survivors(nodes, d);
        if live(nodes, r.last() as int) {
            if sd.contains(r.last()) {
                let m = d.index_of(r.last());
                assert(r[m] == r[r.len() - 1]);
            }
            assert forall|i: int, j: int|
                0 <= i < sd.len() + 1 && 0 <= j < sd.len() + 1 && i != j implies sd.push(
                r.last(),
            )[i] != sd.push(r.last())[j] by {
                if i < sd.len() {
                    assert(sd.contains(sd[i]));
                }
                if j < sd.len() {
                    assert(sd.contains(sd[j]));
                }
            }
        }
    }
}

/// Which entries survive depends on the removal flags of the entries alone.
pub proof fn lemma_survivors_frame(a: Seq<Node>, b: Seq<Node>, r: Seq<u32>)
    requires
        a.len() == b.len(),
        forall|k: int|
            0 <= k < r.len() && r[k] < a.len() ==> (#[trigger] a[r[k] as int]).is_removed
                == b[r[k] as int].is_removed,
    ensures
        survivors(a, r) == survivors(b, r),
    decreases r.len(),
{
    if r.len() > 0 {
        let d = r.drop_last();
        assert forall|k: int| 0 <= k < d.len() && d[k] < a.len() implies (#[trigger] a[d[k] as int]).is_removed
            == b[d[k] as int].is_removed by {
            assert(d[k] == r[k]);
        }
        lemma_survivors_frame(a, b, d);
        let k = r.len() - 1;
        if r[k] < a.len() {
            assert(a[r[k] as int].is_removed == b[r[k] as int].is_removed);
        }
    }
}

/// The number of triangles depends on the `relative` links and the removal
/// flags alone.
pub proof fn lemma_face_total_frame(a: Seq<Node>, b: Seq<Node>, n: int)
    requires
        same_faces(a, b),
        n <= a.len(),
    ensures
        face_total(a, n) == face_total(b, n),
    decreases n,
{
    if n > 0 {
        lemma_face_total_frame(a, b, n - 1);
        let i = n - 1;
        assert(a[i].relative == b[i].relative);
        if a[i].relative < a.len() {
            assert(a[a[i].relative as int].relative == b[a[i].relative as int].relative);
        }
    }
}

/// Where the triangles are the same in two node arrays, and every live
/// node has kept its indices in range, the nodes of the second are right if
/// those of the first are.
pub proof fn lemma_nodes_ok_frame(a: Seq<Node>, b: Seq<Node>, positions: int, normals: Option<int>)
    requires
        same_faces(a, b),
        nodes_ok(a, positions, normals),
        forall|i: int|
            0 <= i < a.len() ==> (#[trigger] b[i]).normal == a[i].normal && (live(a, i)
                ==> b[i].position < positions),
    ensures
        nodes_ok(b, positions, normals),
{
    assert forall|i: int| #[trigger] live(b, i) implies node_ok(b, i, positions, normals) by {
        assert(a[i].is_removed == b[i].is_removed);
        assert(live(a, i));
        assert(node_ok(a, i, positions, normals));
        let x = a[i].relative as int;
        assert(live(a, x));
        let y = a[x].relative as int;
        assert(live(a, y));
        assert(a[x].relative == b[x].relative);
        assert(a[y].relative == b[y].relative);
        assert(a[x].is_removed == b[x].is_removed);
        assert(a[y].is_removed == b[y].is_removed);
    }
}

/// A ring whose members are untouched is a ring still.
pub proof fn lemma_ring_frame(a: Seq<Node>, b: Seq<Node>, r: Seq<u32>, p: int)
    requires
        is_ring(a, r, p),
        a.len() == b.len(),
        forall|k: int| 0 <= k < r.len() ==> #[trigger] b[r[k] as int] == a[r[k] as int],
    ensures
        is_ring(b, r, p),
{
    assert forall|k: int| 0 <= k < r.len() implies (#[trigger] b[r[k] as int]).position == p by {
        assert(a[r[k] as int].position == p);
    }
    assert forall|k: int| 0 <= k < r.len() implies (#[trigger] b[r[k] as int]).sibling == r[succ(
        k,
        r.len() as int,
    )] by {
        assert(a[r[k] as int].sibling == r[succ(k, r.len() as int)]);
    }
}

/// The nodes that have been threaded into one cycle form a ring.
pub proof fn lemma_relinked_ring(before: Seq<Node>, after: Seq<Node>, kept: Seq<u32>, p: u32)
    requires
        relinks(before, after, kept, p),
        kept.no_duplicates(),
        forall|k: int| 0 <= k < kept.len() ==> (#[trigger] kept[k]) < before.len(),
    ensures
        is_ring(after, kept, p as int),
{
    assert forall|k: int| 0 <= k < kept.len() implies (#[trigger] after[kept[k] as int]).sibling
        == kept[succ(k, kept.len() as int)] by {}
    assert forall|k: int| 0 <= k < kept.len() implies (#[trigger] after[kept[k] as int]).position
        == p by {}
}

/// Threading the live corners of two positions into one ring, at one of
/// the two, keeps a mesh linked, and leaves the new ring without removed
/// nodes.
pub proof fn lemma_relink_keeps_linked(
    before: Seq<Node>,
    after: Seq<Node>,
    rings: Seq<Seq<u32>>,
    kept: Seq<u32>,
    pa: u32,
    pb: u32,
    p: u32,
    positions: int,
    normals: Option<int>,
    faces: int,
)
    requires
        linked(before, rings, positions, normals, faces),
        0 <= pa < positions,
        0 <= pb < positions,
        p == pa || p == pb,
        kept.no_duplicates(),
        forall|x: u32|
            kept.contains(x) <==> (live(before, x as int) && (before[x as int].position == pa
                || before[x as int].position == pb)),
        relinks(before, after, kept, p),
    ensures
        linked(after, merged_rings(rings, kept, pa, pb, p), positions, normals, faces),
        same_faces(before, after),
        forall|k: int| 0 <= k < kept.len() ==> live(after, #[trigger] kept[k] as int),
{
    lemma_linked_parts(before, rings, positions, normals, faces);
    let rings2 = merged_rings(rings, kept, pa, pb, p);
    assert forall|k: int| 0 <= k < kept.len() implies (#[trigger] kept[k]) < before.len() && live(
        before,
        kept[k] as int,
    ) && (before[kept[k] as int].position == pa || before[kept[k] as int].position == pb) by {
        assert(kept.contains(kept[k]));
    }
    assert forall|i: int| 0 <= i < before.len() implies (#[trigger] before[i]).relative
        == after[i].relative && before[i].is_removed == after[i].is_removed && (
    #[trigger] after[i]).normal == before[i].normal && (live(before, i) ==> after[i].position
        < positions) by {
        if kept.contains(i as u32) {
            let k = kept.index_of(i as u32);
            assert(after[kept[k] as int].position == p);
        } else {
            assert(after[i] == before[i]);
            if live(before, i) {
                assert(node_ok(before, i, positions, normals));
            }
        }
    }
    assert(same_faces(before, after));
    lemma_face_total_frame(before, after, before.len() as int);
    lemma_nodes_ok_frame(before, after, positions, normals);
    lemma_relinked_ring(before, after, kept, p);
    assert(rings_ok(after, rings2, positions)) by {
        assert forall|q: int| 0 <= q < positions implies is_ring(after, #[trigger] rings2[q], q) by {
            if q == p {
                assert(rings2[q] == kept);
            } else if q == pa || q == pb {
                assert(rings2[q] == Seq::<u32>::empty());
            } else {
                let r = rings[q];
                assert(rings2[q] == r);
                assert(is_ring(before, r, q));
                assert forall|k: int| 0 <= k < r.len() implies #[trigger] after[r[k] as int]
                    == before[r[k] as int] by {
                    assert(before[r[k] as int].position == q);
                }
                lemma_ring_frame(before, after, r, q);
            }
        }
    }
    assert(members_ok(after, rings2)) by {
        assert forall|i: int| #[trigger] live(after, i) implies rings2[after[i].position as int].contains(
            i as u32,
        ) by {
            assert(before[i].is_removed == after[i].is_removed);
            assert(live(before, i));
            assert(node_ok(before, i, positions, normals));
            assert(rings[before[i].position as int].contains(i as u32));
            if kept.contains(i as u32) {
                let k = kept.index_of(i as u32);
                assert(after[kept[k] as int].position == p);
            } else {
                assert(after[i] == before[i]);
            }
        }
    }
    lemma_linked_whole(after, rings2, positions, normals, faces);
    assert forall|k: int| 0 <= k < kept.len() implies live(after, #[trigger] kept[k] as int) by {
        assert(before[kept[k] as int].is_removed == after[kept[k] as int].is_removed);
    }
}

/// The ring of a node of a linked mesh can be walked from the node: the
/// walk is a ring with the same members, and has no repetition.
pub proof fn lemma_ring_of(
    nodes: Seq<Node>,
    rings: Seq<Seq<u32>>,
    positions: int,
    normals: Option<int>,
    faces: int,
    p: u32,
    node: u32,
)
    requires
        linked(nodes, rings, positions, normals, faces),
        p < rings.len(),
        rings[p as int].contains(node),
    ensures
        p < positions,
        is_ring(nodes, rings[p as int], p as int),
        ({
            let walk = rotate(rings[p as int], rings[p as int].index_of(node));
            &&& is_ring(nodes, walk, p as int)
            &&& walk.no_duplicates()
            &&& walk.len() > 0
            &&& walk[0] == node
            &&& forall|x: u32| rings[p as int].contains(x) <==> walk.contains(x)
            &&& forall|k: int| 0 <= k < walk.len() ==> (#[trigger] walk[k]) < nodes.len()
        }),
{
    lemma_linked_parts(nodes, rings, positions, normals, faces);
    let ring = rings[p as int];
    assert(is_ring(nodes, ring, p as int));
    lemma_rotate_ring(nodes, ring, p as int, ring.index_of(node));
}

/// The survivors of a walk round the ring of `p` are the live nodes at
/// `p`.
pub proof fn lemma_kept_members(
    before: Seq<Node>,
    rings: Seq<Seq<u32>>,
    positions: int,
    normals: Option<int>,
    faces: int,
    p: u32,
    walk: Seq<u32>,
)
    requires
        linked(before, rings, positions, normals, faces),
        p < positions,
        forall|x: u32| rings[p as int].contains(x) <==> walk.contains(x),
    ensures
        forall|x: u32|
            survivors(before, walk).contains(x) <==> (live(before, x as int) && before[x as int].position
                == p),
        forall|k: int|
            0 <= k < survivors(before, walk).len() ==> (#[trigger] survivors(before, walk)[k])
                < before.len(),
{
    lemma_survivors_members(before, walk);
    assert forall|k: int| 0 <= k < survivors(before, walk).len() implies (#[trigger] survivors(
        before,
        walk,
    )[k]) < before.len() by {
        let x = survivors(before, walk)[k];
        assert(survivors(before, walk).contains(x));
        assert(walk.contains(x));
        assert(rings[p as int].contains(x));
        lemma_linked_member(before, rings, positions, normals, faces, p as int, x);
    }
    assert forall|x: u32|
        survivors(before, walk).contains(x) <==> (live(before, x as int) && before[x as int].position
            == p) by {
        if live(before, x as int) && before[x as int].position == p {
            lemma_linked_node(before, rings, positions, normals, faces, x as int);
        }
        if survivors(before, walk).contains(x) {
            assert(walk.contains(x));
            assert(rings[p as int].contains(x));
            lemma_linked_member(before, rings, positions, normals, faces, p as int, x);
        }
    }
}

/// The survivors of two walks, round the rings of two different positions,
/// have no node in common, and are the live nodes at the two positions.
pub proof fn lemma_kept_two(
    before: Seq<Node>,
    rings: Seq<Seq<u32>>,
    positions: int,
    normals: Option<int>,
    faces: int,
    pa: u32,
    pb: u32,
    walk_a: Seq<u32>,
    walk_b: Seq<u32>,
)
    requires
        linked(before, rings, positions, normals, faces),
        pa < positions,
        pb < positions,
        pa != pb,
        walk_a.no_duplicates(),
        walk_b.no_duplicates(),
        forall|x: u32| rings[pa as int].contains(x) <==> walk_a.contains(x),
        forall|x: u32| rings[pb as int].contains(x) <==> walk_b.contains(x),
    ensures
        (survivors(before, walk_a) + survivors(before, walk_b)).no_duplicates(),
        forall|x: u32|
            (survivors(before, walk_a) + survivors(before, walk_b)).contains(x) <==> (live(
                before,
                x as int,
            ) && (before[x as int].position == pa || before[x as int].position == pb)),
        forall|k: int|
            0 <= k < (survivors(before, walk_a) + survivors(before, walk_b)).len() ==> (
            #[trigger] (survivors(before, walk_a) + survivors(before, walk_b))[k]) < before.len(),
{
    let sa = survivors(before, walk_a);
    let sb = survivors(before, walk_b);
    lemma_kept_members(before, rings, positions, normals, faces, pa, walk_a);
    lemma_kept_members(before, rings, positions, normals, faces, pb, walk_b);
    lemma_survivors_distinct(before, walk_a);
    lemma_survivors_distinct(before, walk_b);
    assert forall|k: int| 0 <= k < sa.len() implies live(before, #[trigger] sa[k] as int)
        && before[sa[k] as int].position == pa by {
        assert(sa.contains(sa[k]));
    }
    assert forall|k: int| 0 <= k < sb.len() implies live(before, #[trigger] sb[k] as int)
        && before[sb[k] as int].position == pb by {
        assert(sb.contains(sb[k]));
    }
    assert forall|i: int, j: int|
        0 <= i < (sa + sb).len() && 0 <= j < (sa + sb).len() && i != j implies (sa + sb)[i] != (sa
        + sb)[j] by {
        if i < sa.len() {
            assert((sa + sb)[i] == sa[i]);
        } else {
            assert((sa + sb)[i] == sb[i - sa.len()]);
        }
        if j < sa.len() {
            assert((sa + sb)[j] == sa[j]);
        } else {
            assert((sa + sb)[j] == sb[j - sa.len()]);
        }
    }
    assert forall|x: u32| (sa + sb).contains(x) <==> (live(before, x as int) && (
    before[x as int].position == pa || before[x as int].position == pb)) by {
        if sa.contains(x) {
            let k = sa.index_of(x);
            assert((sa + sb)[k] == x);
        }
        if sb.contains(x) {
            let k = sb.index_of(x);
            assert((sa + sb)[sa.len() + k] == x);
        }
        if (sa + sb).contains(x) {
            let k = (sa + sb).index_of(x);
            if k < sa.len() {
                assert(sa[k] == x);
                assert(sa.contains(x));
            } else {
                assert(sb[k - sa.len()] == x);
                assert(sb.contains(x));
            }
        }
    }
    assert forall|k: int| 0 <= k < (sa + sb).len() implies (#[trigger] (sa + sb)[k]) < before.len() by {
        if k < sa.len() {
            assert((sa + sb)[k] == sa[k]);
        } else {
            assert((sa + sb)[k] == sb[k - sa.len()]);
        }
    }
}

/// The survivors of a concatenation are the survivors of its parts.
pub proof fn lemma_survivors_concat(nodes: Seq<Node>, a: Seq<u32>, b: Seq<u32>)
    ensures
        survivors(nodes, a + b) == survivors(nodes, a) + survivors(nodes, b),
    decreases b.len(),
{
    if b.len() == 0 {
        assert(a + b =~= a);
        assert(survivors(nodes, a) + survivors(nodes, b) =~= survivors(nodes, a));
    } else {
        lemma_survivors_concat(nodes, a, b.drop_last());
        assert((a + b).drop_last() =~= a + b.drop_last());
        assert((a + b).last() == b.last());
        if live(nodes, b.last() as int) {
            assert((survivors(nodes, a) + survivors(nodes, b.drop_last())).push(b.last())
                =~= survivors(nodes, a) + survivors(nodes, b.drop_last()).push(b.last()));
        }
    }
}

/// Where every entry is live, all entries survive.
pub proof fn lemma_survivors_all(nodes: Seq<Node>, r: Seq<u32>)
    requires
        forall|k: int| 0 <= k < r.len() ==> live(nodes, #[trigger] r[k] as int),
    ensures
        survivors(nodes, r) == r,
    decreases r.len(),
{
    if r.len() > 0 {
        let d = r.drop_last();
        assert forall|k: int| 0 <= k < d.len() implies live(nodes, #[trigger] d[k] as int) by {
            assert(d[k] == r[k]);
        }
        lemma_survivors_all(nodes, d);
        assert(live(nodes, r[r.len() - 1] as int));
        assert(d.push(r.last()) =~= r);
    }
}

/// Taking the survivors twice, the second time after more nodes have been
/// removed, is taking them once.
pub proof fn lemma_survivors_again(a: Seq<Node>, b: Seq<Node>, r: Seq<u32>)
    requires
        a.len() == b.len(),
        forall|i: int| 0 <= i < a.len() && (#[trigger] a[i]).is_removed ==> b[i].is_removed,
    ensures
        survivors(b, survivors(a, r)) == survivors(b, r),
    decreases r.len(),
{
    if r.len() > 0 {
        let d = r.drop_last();
        let x = r.last();
        lemma_survivors_again(a, b, d);
        if live(a, x as int) {
            lemma_survivors_push(b, survivors(a, d), x);
        } else {
            if x < a.len() {
                assert(a[x as int].is_removed ==> b[x as int].is_removed);
            }
        }
    }
}

/// The survivors of a list read from entry `t` onwards are the survivors of
/// the list, read from the first survivor at or after `t` onwards.
pub proof fn lemma_rotate_survivors(nodes: Seq<Node>, r: Seq<u32>, t: int)
    requires
        0 <= t <= r.len(),
    ensures
        survivors(nodes, r.take(t)).len() <= survivors(nodes, r).len(),
        survivors(nodes, rotate(r, t)) == rotate(
            survivors(nodes, r),
            survivors(nodes, r.take(t)).len() as int,
        ),
{
    let front = r.subrange(0, t);
    let back = r.subrange(t, r.len() as int);
    assert(r.take(t) =~= front);
    assert(front + back =~= r);
    lemma_survivors_concat(nodes, front, back);
    lemma_survivors_concat(nodes, back, front);
    let sf = survivors(nodes, front);
    let sb = survivors(nodes, back);
    let whole = survivors(nodes, r);
    assert(whole == sf + sb);
    let m = sf.len() as int;
    assert(whole.subrange(m, whole.len() as int) =~= sb);
    assert(whole.subrange(0, m) =~= sf);
}

/// Every place among the survivors of a list is the number of survivors of
/// some front part of the list.
pub proof fn lemma_survivors_cut(nodes: Seq<Node>, r: Seq<u32>, j: int) -> (t: int)
    requires
        0 <= j <= survivors(nodes, r).len(),
    ensures
        0 <= t <= r.len(),
        survivors(nodes, r.take(t)).len() == j,
    decreases r.len(),
{
    if r.len() == 0 {
        assert(r.take(0) =~= r);
        0
    } else {
        let d = r.drop_last();
        if j <= survivors(nodes, d).len() {
            let t = lemma_survivors_cut(nodes, d, j);
            assert(r.take(t) =~= d.take(t));
            t
        } else {
            assert(r.take(r.len() as int) =~= r);
            r.len() as int
        }
    }
}

/// Reading a list from entry `t` onwards, and the result from its entry
/// `u` onwards, is reading the list from one of its entries onwards.
pub proof fn lemma_rotate_twice(r: Seq<u32>, t: int, u: int) -> (v: int)
    requires
        0 <= t <= r.len(),
        0 <= u <= r.len(),
    ensures
        0 <= v <= r.len(),
        rotate(rotate(r, t), u) == rotate(r, v),
{
    let len = r.len() as int;
    let v = if t + u <= len {
        t + u
    } else {
        t + u - len
    };
    assert(rotate(rotate(r, t), u) =~= rotate(r, v));
    v
}

/// `ring` is what is left of the ring `first`: its live members, in the
/// cyclic order that they have in `first`.
pub open spec fn left_of(first: Seq<u32>, nodes: Seq<Node>, ring: Seq<u32>) -> bool {
    exists|t: int| 0 <= t <= first.len() && ring == #[trigger] kept_from(first, nodes, t)
}

/// The live members of the ring `first`, read from its entry `t` onwards.
pub open spec fn kept_from(first: Seq<u32>, nodes: Seq<Node>, t: int) -> Seq<u32> {
    survivors(nodes, rotate(first, t))
}

/// What is left of a ring that is read from one of its entries onwards,
/// after more nodes have been removed, is what is left of the ring.
pub proof fn lemma_left_of_step(
    first: Seq<u32>,
    nodes: Seq<Node>,
    mid: Seq<Node>,
    ring: Seq<u32>,
    j: int,
)
    requires
        left_of(first, nodes, ring),
        0 <= j <= ring.len(),
        nodes.len() == mid.len(),
        forall|i: int| 0 <= i < nodes.len() && (#[trigger] nodes[i]).is_removed ==> mid[i].is_removed,
    ensures
        left_of(first, mid, survivors(mid, rotate(ring, j))),
{
    let t = choose|t: int| 0 <= t <= first.len() && ring == #[trigger] kept_from(first, nodes, t);
    let x = rotate(first, t);
    assert(ring == survivors(nodes, x));
    let u = lemma_survivors_cut(nodes, x, j);
    lemma_rotate_survivors(nodes, x, u);
    assert(rotate(ring, j) == survivors(nodes, rotate(x, u)));
    let v = lemma_rotate_twice(first, t, u);
    lemma_survivors_again(nodes, mid, rotate(first, v));
    assert(survivors(mid, rotate(ring, j)) == kept_from(first, mid, v));
}

/// What is left of a ring is the same in two node arrays in which the
/// members of the ring have the same removal flags.
pub proof fn lemma_left_of_frame(first: Seq<u32>, a: Seq<Node>, b: Seq<Node>, ring: Seq<u32>)
    requires
        left_of(first, a, ring),
        a.len() == b.len(),
        forall|k: int|
            0 <= k < first.len() && first[k] < a.len() ==> (#[trigger] a[first[k] as int]).is_removed
                == b[first[k] as int].is_removed,
    ensures
        left_of(first, b, ring),
{
    let t = choose|t: int| 0 <= t <= first.len() && ring == #[trigger] kept_from(first, a, t);
    let x = rotate(first, t);
    assert forall|k: int| 0 <= k < x.len() && x[k] < a.len() implies (#[trigger] a[x[k] as int]).is_removed
        == b[x[k] as int].is_removed by {
        let m = if t + k < first.len() {
            t + k
        } else {
            t + k - first.len()
        };
        assert(x[k] == first[m]);
        assert(a[first[m] as int].is_removed == b[first[m] as int].is_removed);
    }
    lemma_survivors_frame(a, b, x);
    assert(ring == kept_from(first, b, t));
}

/// A ring without removed nodes is what is left of itself.
pub proof fn lemma_left_of_start(first: Seq<u32>, nodes: Seq<Node>)
    requires
        forall|k: int| 0 <= k < first.len() ==> live(nodes, #[trigger] first[k] as int),
    ensures
        left_of(first, nodes, first),
{
    assert(rotate(first, 0) =~= first);
    lemma_survivors_all(nodes, first);
    assert(first == kept_from(first, nodes, 0));
}

} // verus!
