//! Checking that a node array is the node array of a well-formed mesh.

use vstd::prelude::*;
use super::node::Node;
use super::topology::{
    clean, face_total, is_ring, lemma_linked_node, lemma_linked_parts, lemma_linked_whole,
    lemma_ring_bound, lemma_rotate_ring, linked, live, members_ok, node_ok, nodes_ok, rings_ok,
    rotate, succ,
};

verus! {

/// The rings fit the node array: with them the mesh is linked, and none of
/// them holds a removed node.
pub open spec fn fits(
    nodes: Seq<Node>,
    rings: Seq<Seq<u32>>,
    positions: int,
    normals: Option<int>,
    faces: int,
) -> bool {
    linked(nodes, rings, positions, normals, faces) && clean(nodes, rings)
}

/// The node array can be the node array of a well-formed mesh with
/// `positions` position slots, `normals` normal slots and `faces`
/// triangles: there are rings that fit it.
pub open spec fn well_formed(nodes: Seq<Node>, positions: int, normals: Option<int>, faces: int) -> bool {
    exists|rings: Seq<Seq<u32>>| fits(nodes, rings, positions, normals, faces)
}

/// The `sibling` link of node `i` leads to a live node at the same
/// position.
pub open spec fn sibling_ok(nodes: Seq<Node>, i: int) -> bool {
    &&& live(nodes, nodes[i].sibling as int)
    &&& nodes[nodes[i].sibling as int].position == nodes[i].position
}

/// Every live node is right as far as can be told from the node and the
/// nodes it is linked to.
#[verifier::opaque]
pub open spec fn locally_ok(nodes: Seq<Node>, positions: int, normals: Option<int>) -> bool {
    forall|i: int|
        #[trigger] live(nodes, i) ==> node_ok(nodes, i, positions, normals) && sibling_ok(nodes, i)
}

/// What local rightness says of one live node.
pub proof fn lemma_local(nodes: Seq<Node>, positions: int, normals: Option<int>, i: int)
    requires
        locally_ok(nodes, positions, normals),
        live(nodes, i),
    ensures
        node_ok(nodes, i, positions, normals),
        sibling_ok(nodes, i),
{
    reveal(locally_ok);
}

/// In a well-formed mesh every live node is locally right.
pub proof fn lemma_fits_locally(
    nodes: Seq<Node>,
    rings: Seq<Seq<u32>>,
    positions: int,
    normals: Option<int>,
    faces: int,
)
    requires
        fits(nodes, rings, positions, normals, faces),
    ensures
        locally_ok(nodes, positions, normals),
{
    reveal(locally_ok);
    lemma_linked_parts(nodes, rings, positions, normals, faces);
    assert forall|i: int| #[trigger] live(nodes, i) implies node_ok(nodes, i, positions, normals)
        && sibling_ok(nodes, i) by {
        lemma_linked_node(nodes, rings, positions, normals, faces, i);
        let p = nodes[i].position as int;
        let ring = rings[p];
        let k = ring.index_of(i as u32);
        assert(is_ring(nodes, ring, p));
        assert(nodes[ring[k] as int].sibling == ring[succ(k, ring.len() as int)]);
        let m = succ(k, ring.len() as int);
        assert(live(nodes, ring[m] as int));
        assert(nodes[ring[m] as int].position == p);
    }
}

/// Whether every live node is locally right.
pub fn check_nodes(nodes: &Vec<Node>, positions: usize, normals: Option<usize>) -> (ok: bool)
    requires
        nodes@.len() <= u32::MAX,
    ensures
        ok == locally_ok(
            nodes@,
            positions as int,
            match normals {
                Some(n) => Some(n as int),
                None => None,
            },
        ),
{
    let ghost slots = positions as int;
    let ghost normal_slots = match normals {
        Some(n) => Some(n as int),
        None => None,
    };
    let n = nodes.len();
    let mut i: usize = 0;
    while i < n
        invariant
            i <= n,
            n == nodes@.len(),
            slots == positions,
            normal_slots == match normals {
                Some(n) => Some(n as int),
                None => None,
            },
            forall|j: int|
                0 <= j < i && #[trigger] live(nodes@, j) ==> node_ok(nodes@, j, slots, normal_slots)
                    && sibling_ok(nodes@, j),
        decreases n - i,
    {
        let node = nodes[i];
        if !node.is_removed {
            let mut good = (node.relative as usize) < n && (node.sibling as usize) < n && (
            node.position as usize) < positions && node.relative as usize != i;
            if good {
                match normals {
                    Some(count) => {
                        good = (node.normal as usize) < count;
                    },
                    None => {},
                }
            }
            if good {
                let a = nodes[node.relative as usize];
                let s = nodes[node.sibling as usize];
                good = !a.is_removed && (a.relative as usize) < n && !s.is_removed && s.position
                    == node.position;
                if good {
                    let b = nodes[a.relative as usize];
                    good = !b.is_removed && b.relative as usize == i;
                }
            }
            if !good {
                proof {
                    reveal(locally_ok);
                    assert(live(nodes@, i as int));
                    assert(!(node_ok(nodes@, i as int, slots, normal_slots) && sibling_ok(
                        nodes@,
                        i as int,
                    )));
                }
                return false;
            }
        }
        i = i + 1;
    }
    proof {
        reveal(locally_ok);
    }
    true
}

/// The number of live triangles.
pub fn count_faces(nodes: &Vec<Node>) -> (count: usize)
    ensures
        count == face_total(nodes@, nodes@.len() as int),
{
    let n = nodes.len();
    let mut count: usize = 0;
    let mut i: usize = 0;
    while i < n
        invariant
            i <= n,
            n == nodes@.len(),
            count == face_total(nodes@, i as int),
            count <= i,
        decreases n - i,
    {
        let node = nodes[i];
        if !node.is_removed && i < node.relative as usize && (node.relative as usize) < n {
            if i < nodes[node.relative as usize].relative as usize {
                count = count + 1;
            }
        }
        i = i + 1;
    }
    count
}

/// What is known while the rings are being put together: the rings so far
/// are cycles of live nodes, the nodes marked are the members of the rings,
/// and a position is marked exactly if it has its ring.
#[verifier::opaque]
pub open spec fn threaded(
    nodes: Seq<Node>,
    rings: Seq<Seq<u32>>,
    visited: Seq<bool>,
    has_ring: Seq<bool>,
) -> bool {
    &&& visited.len() == nodes.len()
    &&& has_ring.len() == rings.len()
    &&& forall|p: int| 0 <= p < rings.len() ==> is_ring(nodes, #[trigger] rings[p], p)
    &&& clean(nodes, rings)
    &&& forall|p: int| 0 <= p < rings.len() ==> (#[trigger] has_ring[p] <==> rings[p].len() > 0)
    &&& forall|j: int|
        0 <= j < nodes.len() ==> (#[trigger] visited[j] <==> (live(nodes, j) && nodes[j].position
            < rings.len() && rings[nodes[j].position as int].contains(j as u32)))
}

/// Every ring so far is the whole ring that `goal` has for its position.
#[verifier::opaque]
pub open spec fn on_course(rings: Seq<Seq<u32>>, goal: Seq<Seq<u32>>) -> bool {
    forall|p: int, x: u32|
        0 <= p < rings.len() && rings[p].len() > 0 && #[trigger] goal[p].contains(x)
            ==> rings[p].contains(x)
}

/// What is known in the middle of a walk from `start`: `ring` lists the
/// nodes passed, each linked to the next, all live at `p`, and the nodes
/// marked are those that were marked `before` and those passed.
#[verifier::opaque]
pub open spec fn walking(
    nodes: Seq<Node>,
    before: Seq<bool>,
    visited: Seq<bool>,
    ring: Seq<u32>,
    start: u32,
    p: u32,
) -> bool {
    &&& visited.len() == nodes.len()
    &&& before.len() == nodes.len()
    &&& nodes.len() <= u32::MAX
    &&& ring.no_duplicates()
    &&& ring.len() > 0 ==> ring[0] == start
    &&& forall|k: int|
        0 <= k < ring.len() ==> (#[trigger] ring[k]) < nodes.len() && live(nodes, ring[k] as int)
            && nodes[ring[k] as int].position == p
    &&& forall|k: int|
        0 <= k < ring.len() - 1 ==> (#[trigger] nodes[ring[k] as int]).sibling == ring[k + 1]
    &&& forall|j: int|
        0 <= j < nodes.len() ==> (#[trigger] visited[j] <==> (before[j] || ring.contains(j as u32)))
    &&& forall|j: int| 0 <= j < nodes.len() && nodes[j].position == p ==> !#[trigger] before[j]
}

/// The walk has followed the ring `rot` so far, and stands at `cur`.
pub open spec fn tracing(rot: Seq<u32>, ring: Seq<u32>, cur: u32) -> bool {
    &&& ring.len() < rot.len()
    &&& ring == rot.take(ring.len() as int)
    &&& cur == rot[ring.len() as int]
}

/// A walk can start from an unmarked live node at a position without a
/// ring.
proof fn lemma_walk_start(
    nodes: Seq<Node>,
    rings: Seq<Seq<u32>>,
    before: Seq<bool>,
    has_ring: Seq<bool>,
    start: u32,
)
    requires
        nodes.len() <= u32::MAX,
        threaded(nodes, rings, before, has_ring),
        live(nodes, start as int),
        nodes[start as int].position < rings.len(),
        !has_ring[nodes[start as int].position as int],
    ensures
        walking(nodes, before, before, Seq::empty(), start, nodes[start as int].position),
{
    reveal(threaded);
    reveal(walking);
    let p = nodes[start as int].position;
    assert(rings[p as int].len() == 0);
    assert forall|j: int| 0 <= j < nodes.len() && nodes[j].position == p implies !#[trigger] before[j] by {
        if before[j] {
            assert(rings[p as int].contains(j as u32));
        }
    }
}

/// A walk that follows a ring does not meet a marked node.
proof fn lemma_walk_meet(
    nodes: Seq<Node>,
    before: Seq<bool>,
    visited: Seq<bool>,
    ring: Seq<u32>,
    start: u32,
    p: u32,
    cur: u32,
    rot: Seq<u32>,
)
    requires
        walking(nodes, before, visited, ring, start, p),
        cur < nodes.len(),
        nodes[cur as int].position == p,
        rot.no_duplicates(),
        tracing(rot, ring, cur),
    ensures
        !visited[cur as int],
{
    reveal(walking);
    if visited[cur as int] {
        assert(ring.contains(cur));
        let k = ring.index_of(cur);
        assert(rot[k] == cur);
    }
}

/// The walk after the node `cur` has been marked and passed.
proof fn lemma_walk_mark(
    nodes: Seq<Node>,
    before: Seq<bool>,
    visited: Seq<bool>,
    ring: Seq<u32>,
    start: u32,
    p: u32,
    cur: u32,
)
    requires
        walking(nodes, before, visited, ring, start, p),
        cur < nodes.len(),
        live(nodes, cur as int),
        nodes[cur as int].position == p,
        !visited[cur as int],
        ring.len() == 0 ==> cur == start,
        ring.len() > 0 ==> nodes[ring[ring.len() - 1] as int].sibling == cur,
    ensures
        walking(nodes, before, visited.update(cur as int, true), ring.push(cur), start, p),
{
    reveal(walking);
    let ring2 = ring.push(cur);
    let visited2 = visited.update(cur as int, true);
    assert(!ring.contains(cur));
    assert forall|a: int, b: int|
        0 <= a < ring2.len() && 0 <= b < ring2.len() && a != b implies ring2[a] != ring2[b] by {
        if a < ring.len() {
            assert(ring.contains(ring[a]));
        }
        if b < ring.len() {
            assert(ring.contains(ring[b]));
        }
    }
    assert forall|k: int| 0 <= k < ring2.len() - 1 implies (#[trigger] nodes[ring2[k] as int]).sibling
        == ring2[k + 1] by {
        if k < ring.len() - 1 {
            assert(nodes[ring[k] as int].sibling == ring[k + 1]);
        }
    }
    assert forall|j: int| 0 <= j < nodes.len() implies (#[trigger] visited2[j] <==> (before[j]
        || ring2.contains(j as u32))) by {
        assert(visited[j] <==> (before[j] || ring.contains(j as u32)));
        if ring.contains(j as u32) {
            let k = ring.index_of(j as u32);
            assert(ring2[k] == j as u32);
        }
        if j == cur {
            assert(ring2[ring.len() as int] == cur);
        }
        if ring2.contains(j as u32) && j != cur {
            let k = ring2.index_of(j as u32);
            assert(ring[k] == j as u32);
        }
    }
}

/// Where the walk follows the ring `rot`, its next step does so, too: it
/// leads back to the start exactly when the whole of `rot` has been passed.
proof fn lemma_walk_trace(nodes: Seq<Node>, rot: Seq<u32>, p: int, ring: Seq<u32>, cur: u32)
    requires
        is_ring(nodes, rot, p),
        tracing(rot, ring, cur),
    ensures
        ring.len() + 1 < rot.len() ==> tracing(rot, ring.push(cur), nodes[cur as int].sibling)
            && nodes[cur as int].sibling != rot[0],
        ring.len() + 1 == rot.len() ==> nodes[cur as int].sibling == rot[0] && ring.push(cur) == rot,
        rot.len() <= nodes.len(),
{
    let k = ring.len() as int;
    assert(rot.take(k).push(rot[k]) =~= rot.take(k + 1));
    assert(nodes[rot[k] as int].sibling == rot[succ(k, rot.len() as int)]);
    if k + 1 == rot.len() {
        assert(rot.take(rot.len() as int) =~= rot);
    } else {
        assert(rot[k + 1] != rot[0]);
    }
    lemma_ring_bound(nodes, rot, p);
}

/// A walk that has come back to its start has found the ring of its
/// position.
proof fn lemma_walk_close(
    nodes: Seq<Node>,
    rings: Seq<Seq<u32>>,
    before: Seq<bool>,
    visited: Seq<bool>,
    has_ring: Seq<bool>,
    ring: Seq<u32>,
    start: u32,
    p: u32,
)
    requires
        threaded(nodes, rings, before, has_ring),
        walking(nodes, before, visited, ring, start, p),
        p < rings.len(),
        !has_ring[p as int],
        ring.len() > 0,
        nodes[ring[ring.len() - 1] as int].sibling == start,
    ensures
        threaded(nodes, rings.update(p as int, ring), visited, has_ring.update(p as int, true)),
        ring[0] == start,
        visited[start as int],
{
    reveal(threaded);
    reveal(walking);
    let rings2 = rings.update(p as int, ring);
    let marks2 = has_ring.update(p as int, true);
    assert(is_ring(nodes, ring, p as int)) by {
        assert forall|k: int| 0 <= k < ring.len() implies (#[trigger] nodes[ring[k] as int]).sibling
            == ring[succ(k, ring.len() as int)] by {
            if k < ring.len() - 1 {
                assert(nodes[ring[k] as int].sibling == ring[k + 1]);
            }
        }
        assert forall|k: int| 0 <= k < ring.len() implies (#[trigger] nodes[ring[k] as int]).position
            == p by {
            assert(ring[k] < nodes.len());
        }
        assert forall|k: int| 0 <= k < ring.len() implies (#[trigger] ring[k]) < nodes.len() by {}
    }
    assert forall|q: int| 0 <= q < rings2.len() implies is_ring(nodes, #[trigger] rings2[q], q) by {
        if q != p {
            assert(is_ring(nodes, rings[q], q));
        }
    }
    assert forall|q: int, k: int| 0 <= q < rings2.len() && 0 <= k < rings2[q].len() implies live(
        nodes,
        #[trigger] rings2[q][k] as int,
    ) by {
        if q != p {
            assert(live(nodes, rings[q][k] as int));
        } else {
            assert(ring[k] < nodes.len());
        }
    }
    assert forall|q: int| 0 <= q < rings2.len() implies (#[trigger] marks2[q] <==> rings2[q].len()
        > 0) by {
        if q != p {
            assert(has_ring[q] <==> rings[q].len() > 0);
        }
    }
    assert(rings[p as int].len() == 0);
    assert forall|j: int| 0 <= j < nodes.len() implies (#[trigger] visited[j] <==> (live(nodes, j)
        && nodes[j].position < rings2.len() && rings2[nodes[j].position as int].contains(j as u32))) by {
        assert(before[j] <==> (live(nodes, j) && nodes[j].position < rings.len()
            && rings[nodes[j].position as int].contains(j as u32)));
        assert(visited[j] <==> (before[j] || ring.contains(j as u32)));
        if ring.contains(j as u32) {
            let k = ring.index_of(j as u32);
            assert(nodes[ring[k] as int].position == p);
        }
    }
    assert(ring.contains(ring[0]));
}

/// The rings stay on course when the ring walked is the whole ring that
/// `goal` has for its position.
proof fn lemma_on_course(rings: Seq<Seq<u32>>, goal: Seq<Seq<u32>>, p: u32, ring: Seq<u32>)
    requires
        on_course(rings, goal),
        p < rings.len(),
        forall|x: u32| goal[p as int].contains(x) ==> ring.contains(x),
    ensures
        on_course(rings.update(p as int, ring), goal),
{
    reveal(on_course);
    let rings2 = rings.update(p as int, ring);
    assert forall|q: int, x: u32|
        0 <= q < rings2.len() && rings2[q].len() > 0 && #[trigger] goal[q].contains(x)
            implies rings2[q].contains(x) by {
        if q != p {
            assert(rings[q].contains(x));
        }
    }
}

/// Walks the `sibling` links from the unmarked live node `start` and marks
/// the nodes on the way. The walk goes well if it comes back to `start`
/// without meeting a marked node.
fn walk_ring(
    nodes: &Vec<Node>,
    start: u32,
    visited: &mut Vec<bool>,
    Ghost(rings): Ghost<Seq<Seq<u32>>>,
    Ghost(has_ring): Ghost<Seq<bool>>,
    Ghost(goal): Ghost<Seq<Seq<u32>>>,
    Ghost(positions): Ghost<int>,
    Ghost(normals): Ghost<Option<int>>,
    Ghost(faces): Ghost<int>,
) -> (r: (bool, Ghost<Seq<u32>>))
    requires
        nodes@.len() <= u32::MAX,
        old(visited)@.len() == nodes@.len(),
        locally_ok(nodes@, positions, normals),
        rings.len() == positions,
        threaded(nodes@, rings, old(visited)@, has_ring),
        live(nodes@, start as int),
        !old(visited)@[start as int],
        nodes@[start as int].position < positions,
        !has_ring[nodes@[start as int].position as int],
        fits(nodes@, goal, positions, normals, faces) ==> on_course(rings, goal),
    ensures
        final(visited)@.len() == nodes@.len(),
        r.0 ==> threaded(
            nodes@,
            rings.update(nodes@[start as int].position as int, r.1@),
            final(visited)@,
            has_ring.update(nodes@[start as int].position as int, true),
        ),
        r.0 ==> final(visited)@[start as int],
        r.0 && fits(nodes@, goal, positions, normals, faces) ==> on_course(
            rings.update(nodes@[start as int].position as int, r.1@),
            goal,
        ),
        fits(nodes@, goal, positions, normals, faces) ==> r.0,
{
    let n = nodes.len();
    let p = nodes[start as usize].position;
    let ghost before = visited@;
    let ghost valid = fits(nodes@, goal, positions, normals, faces);
    let ghost whole = goal[p as int];
    let ghost rot = rotate(whole, whole.index_of(start));
    proof {
        lemma_walk_start(nodes@, rings, before, has_ring, start);
        if valid {
            lemma_linked_node(nodes@, goal, positions, normals, faces, start as int);
            lemma_linked_parts(nodes@, goal, positions, normals, faces);
            assert(is_ring(nodes@, whole, p as int));
            lemma_rotate_ring(nodes@, whole, p as int, whole.index_of(start));
            assert(rot.take(0) =~= Seq::<u32>::empty());
        }
    }
    let mut cur: u32 = start;
    let mut steps: usize = 0;
    let ghost mut ring: Seq<u32> = Seq::empty();
    let mut ok = true;
    loop
        invariant_except_break
            ok,
            steps < n,
            cur < n,
            live(nodes@, cur as int),
            nodes@[cur as int].position == p,
            steps == 0 ==> cur == start,
            steps > 0 ==> nodes@[ring[steps - 1] as int].sibling == cur,
            valid ==> tracing(rot, ring, cur),
        invariant
            n == nodes@.len(),
            n <= u32::MAX,
            start < n,
            steps == ring.len(),
            visited@.len() == n,
            locally_ok(nodes@, positions, normals),
            walking(nodes@, before, visited@, ring, start, p),
            valid ==> is_ring(nodes@, rot, p as int) && rot.len() > 0 && rot[0] == start && (
            forall|x: u32| whole.contains(x) <==> rot.contains(x)),
        ensures
            ok ==> ring.len() > 0 && nodes@[ring[ring.len() - 1] as int].sibling == start,
            valid ==> ok && ring == rot,
        decreases n - steps,
    {
        if visited[cur as usize] {
            proof {
                if valid {
                    lemma_walk_meet(nodes@, before, visited@, ring, start, p, cur, rot);
                }
            }
            ok = false;
            break ;
        }
        proof {
            lemma_walk_mark(nodes@, before, visited@, ring, start, p, cur);
            lemma_local(nodes@, positions, normals, cur as int);
            if valid {
                lemma_walk_trace(nodes@, rot, p as int, ring, cur);
            }
        }
        visited[cur as usize] = true;
        proof {
            ring = ring.push(cur);
        }
        steps = steps + 1;
        let following = nodes[cur as usize].sibling;
        if following == start {
            break ;
        }
        if steps >= n {
            ok = false;
            break ;
        }
        cur = following;
    }
    proof {
        if ok {
            lemma_walk_close(nodes@, rings, before, visited@, has_ring, ring, start, p);
            if valid {
                lemma_on_course(rings, goal, p, ring);
            }
        }
    }
    (ok, Ghost(ring))
}

/// A live node that is not marked sits at a position without a ring, where
/// the node array has rings that fit and the rings so far are on course.
proof fn lemma_unmarked(
    nodes: Seq<Node>,
    rings: Seq<Seq<u32>>,
    visited: Seq<bool>,
    has_ring: Seq<bool>,
    goal: Seq<Seq<u32>>,
    positions: int,
    normals: Option<int>,
    faces: int,
    i: int,
)
    requires
        threaded(nodes, rings, visited, has_ring),
        rings.len() == positions,
        fits(nodes, goal, positions, normals, faces),
        on_course(rings, goal),
        live(nodes, i),
        !visited[i],
    ensures
        !has_ring[nodes[i].position as int],
{
    reveal(threaded);
    reveal(on_course);
    lemma_linked_node(nodes, goal, positions, normals, faces, i);
    let p = nodes[i].position as int;
    if has_ring[p] {
        assert(goal[p].contains(i as u32));
        assert(rings[p].contains(i as u32));
    }
}

/// Once every live node is marked, the rings fit.
proof fn lemma_all_marked(
    nodes: Seq<Node>,
    rings: Seq<Seq<u32>>,
    visited: Seq<bool>,
    has_ring: Seq<bool>,
    positions: int,
    normals: Option<int>,
    faces: int,
)
    requires
        nodes.len() <= u32::MAX,
        threaded(nodes, rings, visited, has_ring),
        rings.len() == positions,
        locally_ok(nodes, positions, normals),
        faces == face_total(nodes, nodes.len() as int),
        forall|j: int| 0 <= j < nodes.len() && live(nodes, j) ==> #[trigger] visited[j],
    ensures
        fits(nodes, rings, positions, normals, faces),
{
    reveal(threaded);
    reveal(locally_ok);
    assert(nodes_ok(nodes, positions, normals));
    assert(rings_ok(nodes, rings, positions));
    assert(members_ok(nodes, rings)) by {
        assert forall|j: int| #[trigger] live(nodes, j) implies rings[nodes[j].position as int].contains(
            j as u32,
        ) by {
            assert(visited[j]);
        }
    }
    lemma_linked_whole(nodes, rings, positions, normals, faces);
}

/// Nothing is threaded at the start.
proof fn lemma_none_threaded(nodes: Seq<Node>, positions: int, visited: Seq<bool>, has_ring: Seq<bool>, goal: Seq<Seq<u32>>)
    requires
        positions >= 0,
        visited.len() == nodes.len(),
        has_ring.len() == positions,
        forall|j: int| 0 <= j < visited.len() ==> !#[trigger] visited[j],
        forall|j: int| 0 <= j < has_ring.len() ==> !#[trigger] has_ring[j],
    ensures
        threaded(nodes, Seq::new(positions as nat, |p: int| Seq::<u32>::empty()), visited, has_ring),
        on_course(Seq::new(positions as nat, |p: int| Seq::<u32>::empty()), goal),
{
    reveal(threaded);
    reveal(on_course);
    let rings = Seq::new(positions as nat, |p: int| Seq::<u32>::empty());
    assert forall|j: int| 0 <= j < nodes.len() implies (#[trigger] visited[j] <==> (live(nodes, j)
        && nodes[j].position < rings.len() && rings[nodes[j].position as int].contains(j as u32))) by {
        if nodes[j].position < rings.len() {
            assert(rings[nodes[j].position as int].len() == 0);
        }
    }
}

/// Puts the rings of the node array together, one for each position that
/// has a live node. This goes well exactly if the node array has rings
/// that fit.
pub fn thread_rings(
    nodes: &Vec<Node>,
    positions: usize,
    Ghost(normals): Ghost<Option<int>>,
    Ghost(faces): Ghost<int>,
) -> (r: (bool, Ghost<Seq<Seq<u32>>>))
    requires
        nodes@.len() <= u32::MAX,
        locally_ok(nodes@, positions as int, normals),
        faces == face_total(nodes@, nodes@.len() as int),
    ensures
        r.0 ==> fits(nodes@, r.1@, positions as int, normals, faces),
        well_formed(nodes@, positions as int, normals, faces) ==> r.0,
{
    let n = nodes.len();
    let ghost slots = positions as int;
    let ghost valid = well_formed(nodes@, slots, normals, faces);
    let ghost goal: Seq<Seq<u32>> = if valid {
        choose|rings: Seq<Seq<u32>>| fits(nodes@, rings, slots, normals, faces)
    } else {
        Seq::empty()
    };
    let mut visited: Vec<bool> = new_marks(n);
    let mut has_ring: Vec<bool> = new_marks(positions);
    let ghost mut rings: Seq<Seq<u32>> = Seq::new(positions as nat, |p: int| Seq::<u32>::empty());
    proof {
        lemma_none_threaded(nodes@, slots, visited@, has_ring@, goal);
    }
    let mut i: usize = 0;
    while i < n
        invariant
            i <= n,
            n == nodes@.len(),
            n <= u32::MAX,
            slots == positions,
            rings.len() == slots,
            visited@.len() == n,
            has_ring@.len() == slots,
            locally_ok(nodes@, slots, normals),
            threaded(nodes@, rings, visited@, has_ring@),
            forall|j: int| 0 <= j < i && live(nodes@, j) ==> #[trigger] visited@[j],
            valid == well_formed(nodes@, slots, normals, faces),
            valid ==> fits(nodes@, goal, slots, normals, faces),
            valid ==> on_course(rings, goal),
            faces == face_total(nodes@, nodes@.len() as int),
        decreases n - i,
    {
        if !nodes[i].is_removed && !visited[i] {
            let p = nodes[i].position;
            proof {
                lemma_local(nodes@, slots, normals, i as int);
                if valid {
                    lemma_unmarked(
                        nodes@,
                        rings,
                        visited@,
                        has_ring@,
                        goal,
                        slots,
                        normals,
                        faces,
                        i as int,
                    );
                }
            }
            if has_ring[p as usize] {
                return (false, Ghost(rings));
            }
            let ghost marks = visited@;
            let ghost had = has_ring@;
            let (ok, ring) = walk_ring(
                nodes,
                i as u32,
                &mut visited,
                Ghost(rings),
                Ghost(has_ring@),
                Ghost(goal),
                Ghost(slots),
                Ghost(normals),
                Ghost(faces),
            );
            if !ok {
                return (false, Ghost(rings));
            }
            has_ring[p as usize] = true;
            proof {
                assert(has_ring@ == had.update(p as int, true));
                lemma_marks_grow(
                    nodes@,
                    rings,
                    marks,
                    had,
                    rings.update(p as int, ring@),
                    visited@,
                    has_ring@,
                    p,
                );
                rings = rings.update(p as int, ring@);
            }
        }
        i = i + 1;
    }
    proof {
        lemma_all_marked(nodes@, rings, visited@, has_ring@, slots, normals, faces);
    }
    (true, Ghost(rings))
}

/// A node that was marked stays marked when a ring is added at a position
/// that had none.
proof fn lemma_marks_grow(
    nodes: Seq<Node>,
    rings: Seq<Seq<u32>>,
    before: Seq<bool>,
    has_ring: Seq<bool>,
    rings2: Seq<Seq<u32>>,
    after: Seq<bool>,
    has_ring2: Seq<bool>,
    p: u32,
)
    requires
        threaded(nodes, rings, before, has_ring),
        threaded(nodes, rings2, after, has_ring2),
        p < rings.len(),
        !has_ring[p as int],
        rings2.len() == rings.len(),
        forall|q: int| 0 <= q < rings.len() && q != p ==> #[trigger] rings2[q] == rings[q],
    ensures
        forall|j: int| 0 <= j < nodes.len() && before[j] ==> #[trigger] after[j],
{
    reveal(threaded);
    assert forall|j: int| 0 <= j < nodes.len() && before[j] implies #[trigger] after[j] by {
        let q = nodes[j].position as int;
        assert(rings[q].contains(j as u32));
        assert(rings[q].len() > 0);
        assert(has_ring[q]);
        assert(rings2[q] == rings[q]);
    }
}

/// `count` marks, none of them set.
fn new_marks(count: usize) -> (marks: Vec<bool>)
    ensures
        marks@.len() == count,
        forall|j: int| 0 <= j < count ==> !#[trigger] marks@[j],
{
    let mut marks: Vec<bool> = Vec::new();
    let mut k: usize = 0;
    while k < count
        invariant
            k <= count,
            marks@.len() == k,
            forall|j: int| 0 <= j < k ==> !#[trigger] marks@[j],
        decreases count - k,
    {
        marks.push(false);
        k = k + 1;
    }
    marks
}

} // verus!
