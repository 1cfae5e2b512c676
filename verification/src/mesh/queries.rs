//! What can be asked of a connected mesh without changing it.

use vstd::prelude::*;
use vstd::std_specs::cmp::PartialEqSpec;
use super::collapse::next;
use super::connected_mesh::{collect_ring, ConnectedMesh};
use super::node::Node;
use super::topology::{
    lemma_linked_node, lemma_linked_ring, lemma_ring_bound, lemma_rotate_ring, linked, live,
};
use crate::utils::tables::{set_insert, set_members, set_new};

verus! {

/// The count that a walk round an edge's first end keeps: the triangles
/// found on the edge, the weight earned so far, and the normals of the two
/// ends in the triangle found last.
pub struct Tally {
    pub faces: nat,
    pub weight: nat,
    pub attr_a: Option<u32>,
    pub attr_b: Option<u32>,
}

/// The weight that a triangle on the edge earns: 10 for each end whose
/// normal equals the normal that the end has in the triangle found before.
pub open spec fn bonus<V: PartialEq>(normals: Option<Seq<V>>, before: Option<u32>, now: u32) -> nat {
    match (normals, before) {
        (Some(ns), Some(x)) => if ns[x as int].eq_spec(&ns[now as int]) {
            10
        } else {
            0
        },
        _ => 0,
    }
}

/// The tally after corner `c` of the triangle of `s` has been looked at:
/// the corner counts if it sits at `pb`.
pub open spec fn look<V: PartialEq>(
    nodes: Seq<Node>,
    normals: Option<Seq<V>>,
    t: Tally,
    s: int,
    c: int,
    pb: u32,
) -> Tally {
    if nodes[c].position == pb {
        Tally {
            faces: t.faces + 1,
            weight: t.weight + bonus(normals, t.attr_b, nodes[c].normal) + bonus(
                normals,
                t.attr_a,
                nodes[s].normal,
            ),
            attr_a: Some(nodes[s].normal),
            attr_b: Some(nodes[c].normal),
        }
    } else {
        t
    }
}

/// The tally after the triangles of the first `k` corners of `ring` have
/// been looked at, each from its corner in `ring` onwards.
pub open spec fn tally<V: PartialEq>(
    nodes: Seq<Node>,
    normals: Option<Seq<V>>,
    ring: Seq<u32>,
    pb: u32,
    k: int,
) -> Tally
    decreases k,
{
    if k <= 0 {
        Tally { faces: 0, weight: 0, attr_a: None, attr_b: None }
    } else {
        let t = tally(nodes, normals, ring, pb, k - 1);
        let s = ring[k - 1] as int;
        if live(nodes, s) {
            let r1 = next(nodes, s);
            let r2 = next(nodes, r1);
            look(nodes, normals, look(nodes, normals, look(nodes, normals, t, s, s, pb), s, r1, pb), s, r2, pb)
        } else {
            t
        }
    }
}

/// The weight of the edge from the vertex with the ring `ring` to the
/// position `pb`: what the triangles on the edge earn, and 100 more where
/// fewer than two triangles are on the edge.
pub open spec fn edge_weight<V: PartialEq>(
    nodes: Seq<Node>,
    normals: Option<Seq<V>>,
    ring: Seq<u32>,
    pb: u32,
) -> nat {
    let t = tally(nodes, normals, ring, pb, ring.len() as int);
    if t.faces < 2 {
        t.weight + 100
    } else {
        t.weight
    }
}

/// Some corner in `found` sits at position `p`.
pub open spec fn reaches(nodes: Seq<Node>, found: Seq<u32>, p: u32) -> bool {
    exists|m: int| 0 <= m < found.len() && nodes[#[trigger] found[m] as int].position == p
}

/// The list `found` with corner `c` at its end, unless it holds a corner at
/// the position of `c` already.
pub open spec fn pick(nodes: Seq<Node>, found: Seq<u32>, c: int) -> Seq<u32> {
    if reaches(nodes, found, nodes[c].position) {
        found
    } else {
        found.push(c as u32)
    }
}

/// The corners next to a vertex: for each position that shares a triangle
/// with one of the first `k` corners of `ring`, the corner at it that a walk
/// round the ring meets first, in the order of the walk. In each triangle
/// the walk goes on from the corner in `ring` along the `relative` links.
pub open spec fn adjacent(nodes: Seq<Node>, ring: Seq<u32>, k: int) -> Seq<u32>
    decreases k,
{
    if k <= 0 {
        Seq::empty()
    } else {
        let s = ring[k - 1] as int;
        let r1 = next(nodes, s);
        let r2 = next(nodes, r1);
        pick(nodes, pick(nodes, adjacent(nodes, ring, k - 1), r1), r2)
    }
}

/// Whether the normals in the slots `before` and `now` are equal; without
/// normals, or without a slot `before`, they are not.
fn same_normal<V: PartialEq>(normals: &Option<Vec<V>>, before: Option<u32>, now: u32) -> (r: bool)
    requires
        *normals matches Some(ns) ==> now < ns@.len() && (before matches Some(x) ==> x < ns@.len()),
    ensures
        *normals is None ==> !r,
        V::obeys_eq_spec() ==> (r <==> bonus(
            match *normals {
                Some(ns) => Some(ns@),
                None => None,
            },
            before,
            now,
        ) == 10),
{
    match normals {
        Some(ns) => match before {
            Some(x) => ns[x as usize] == ns[now as usize],
            None => false,
        },
        None => false,
    }
}

impl<V> ConnectedMesh<V> {
    /// The corners of the vertex of `node_index`, in the order of their
    /// `sibling` links, `node_index` first.
    pub fn siblings(&self, node_index: u32) -> (ring: Vec<u32>)
        requires
            self.linked(),
            self.in_ring(node_index),
        ensures
            ring@ == self.ring_from(node_index),
            ring@.len() <= self.spec_nodes().len(),
            ring@.len() > 0,
            ring@[0] == node_index,
    {
        let nodes = self.nodes();
        let ghost p = nodes@[node_index as int].position as int;
        let ghost ring = self.spec_rings()[p];
        proof {
            assert(self.spec_rings().len() == self.spec_positions().len()) by {
                reveal(linked);
            }
            lemma_linked_ring(
                nodes@,
                self.spec_rings(),
                self.spec_positions().len() as int,
                self.normal_slots(),
                self.spec_face_count() as int,
                p,
            );
            lemma_rotate_ring(nodes@, ring, p, ring.index_of(node_index));
            lemma_ring_bound(nodes@, ring, p);
        }
        collect_ring(nodes, node_index, Ghost(ring), Ghost(p))
    }

    /// Whether the ring of `node_index` has at most 100 corners.
    pub fn check_siblings(&self, node_index: u32) -> (r: bool)
        requires
            self.linked(),
            self.in_ring(node_index),
        ensures
            r == (self.ring_from(node_index).len() <= 100),
    {
        self.siblings(node_index).len() <= 100
    }

    /// Whether the `relative` links lead from `node_index` back to it in
    /// three steps. In a linked mesh they do so from every live node.
    pub fn check_relatives(&self, node_index: u32) -> (r: bool)
        requires
            self.linked(),
            live(self.spec_nodes(), node_index as int),
        ensures
            r,
            r == (next(
                self.spec_nodes(),
                next(self.spec_nodes(), next(self.spec_nodes(), node_index as int)),
            ) == node_index),
    {
        let nodes = self.nodes();
        proof {
            lemma_linked_node(
                nodes@,
                self.spec_rings(),
                self.spec_positions().len() as int,
                self.normal_slots(),
                self.spec_face_count() as int,
                node_index as int,
            );
        }
        let r1 = nodes[node_index as usize].relative;
        let r2 = nodes[r1 as usize].relative;
        nodes[r2 as usize].relative == node_index
    }
}

impl<V> ConnectedMesh<V> {
    /// The corners next to the vertex of `node_index`: one corner for each
    /// position that shares a triangle with the vertex. See [`adjacent`].
    pub fn adjacent_corners(&self, node_index: u32) -> (found: Vec<u32>)
        requires
            self.wf(),
            live(self.spec_nodes(), node_index as int),
        ensures
            found@ == adjacent(
                self.spec_nodes(),
                self.ring_from(node_index),
                self.ring_from(node_index).len() as int,
            ),
            forall|m: int|
                0 <= m < found@.len() ==> live(self.spec_nodes(), #[trigger] found@[m] as int),
    {
        let nodes = self.nodes();
        let ghost rings = self.spec_rings();
        let ghost slots = self.spec_positions().len() as int;
        let ghost normal_slots = self.normal_slots();
        let ghost faces = self.spec_face_count() as int;
        proof {
            lemma_linked_node(nodes@, rings, slots, normal_slots, faces, node_index as int);
            let p = nodes@[node_index as int].position as int;
            lemma_linked_ring(nodes@, rings, slots, normal_slots, faces, p);
            crate::mesh::collapse::lemma_walk_live(
                nodes@,
                rings,
                nodes@[node_index as int].position,
                node_index,
            );
        }
        let ring = self.siblings(node_index);
        let mut buffer = set_new();
        let mut found: Vec<u32> = Vec::new();
        let mut k: usize = 0;
        while k < ring.len()
            invariant
                k <= ring@.len(),
                nodes@ == self.spec_nodes(),
                linked(nodes@, rings, slots, normal_slots, faces),
                forall|m: int| 0 <= m < ring@.len() ==> live(nodes@, #[trigger] ring@[m] as int),
                found@ == adjacent(nodes@, ring@, k as int),
                forall|p: u32| set_members(buffer).contains(p) <==> reaches(nodes@, found@, p),
                forall|m: int| 0 <= m < found@.len() ==> live(nodes@, #[trigger] found@[m] as int),
            decreases ring@.len() - k,
        {
            let s = ring[k];
            proof {
                assert(live(nodes@, ring@[k as int] as int));
                lemma_linked_node(nodes@, rings, slots, normal_slots, faces, s as int);
                lemma_linked_node(nodes@, rings, slots, normal_slots, faces, next(nodes@, s as int));
            }
            let r1 = nodes[s as usize].relative;
            let r2 = nodes[r1 as usize].relative;
            let ghost found0 = found@;
            if set_insert(&mut buffer, nodes[r1 as usize].position) {
                found.push(r1);
            }
            proof {
                lemma_pick(nodes@, found0, r1 as int);
            }
            let ghost found1 = found@;
            if set_insert(&mut buffer, nodes[r2 as usize].position) {
                found.push(r2);
            }
            proof {
                lemma_pick(nodes@, found1, r2 as int);
            }
            k = k + 1;
        }
        found
    }
}

/// The positions reached after a corner has been picked.
proof fn lemma_pick(nodes: Seq<Node>, found: Seq<u32>, c: int)
    requires
        0 <= c < nodes.len(),
        nodes.len() <= u32::MAX,
    ensures
        forall|p: u32|
            reaches(nodes, pick(nodes, found, c), p) <==> (reaches(nodes, found, p) || p
                == nodes[c].position),
{
    let after = pick(nodes, found, c);
    assert forall|p: u32| reaches(nodes, after, p) <==> (reaches(nodes, found, p) || p
        == nodes[c].position) by {
        if reaches(nodes, found, p) {
            let m = choose|m: int| 0 <= m < found.len() && nodes[#[trigger] found[m] as int].position == p;
            assert(after[m] == found[m]);
        }
        if p == nodes[c].position && !reaches(nodes, found, p) {
            assert(after[found.len() as int] == c as u32);
        }
        if reaches(nodes, after, p) {
            let m = choose|m: int| 0 <= m < after.len() && nodes[#[trigger] after[m] as int].position == p;
            if m < found.len() {
                assert(found[m] == after[m]);
            }
        }
    }
}

impl<V: PartialEq> ConnectedMesh<V> {
    /// The weight of the edge from the vertex of `node_index_a` to the
    /// vertex of `node_index_b`, which says how much the edge should resist
    /// being collapsed: 100 where the edge is on fewer than two triangles,
    /// and 10 for each end and each triangle on the edge in which the end
    /// has the same normal as in the triangle before.
    pub fn get_edge_topo(&self, node_index_a: u32, node_index_b: u32) -> (weight: u64)
        requires
            self.linked(),
            self.in_ring(node_index_a),
            node_index_b < self.spec_nodes().len(),
        ensures
            V::obeys_eq_spec() || self.spec_normals() is None ==> weight == edge_weight(
                self.spec_nodes(),
                self.spec_normals(),
                self.ring_from(node_index_a),
                self.spec_nodes()[node_index_b as int].position,
            ),
    {
        let nodes = self.nodes();
        let normals = self.normals();
        let pos_b = nodes[node_index_b as usize].position;
        let ring = self.siblings(node_index_a);
        let ghost slots = self.spec_positions().len() as int;
        let ghost normal_slots = self.normal_slots();
        let ghost faces_total = self.spec_face_count() as int;
        let ghost rings = self.spec_rings();
        let ghost exact = V::obeys_eq_spec() || self.spec_normals() is None;
        proof {
            assert(nodes@.len() <= u32::MAX && rings.len() == slots) by {
                reveal(linked);
            }
            let p = nodes@[node_index_a as int].position as int;
            lemma_linked_ring(nodes@, rings, slots, normal_slots, faces_total, p);
            lemma_rotate_ring(nodes@, rings[p], p, rings[p].index_of(node_index_a));
        }
        let mut faces_attached: u64 = 0;
        let mut edge_weight: u64 = 0;
        let mut attribute_at_a: Option<u32> = None;
        let mut attribute_at_b: Option<u32> = None;
        let mut k: usize = 0;
        while k < ring.len()
            invariant
                k <= ring@.len(),
                ring@.len() <= nodes@.len(),
                nodes@.len() <= u32::MAX,
                nodes@ == self.spec_nodes(),
                linked(nodes@, rings, slots, normal_slots, faces_total),
                normal_slots == self.normal_slots(),
                self.spec_normals() == match *normals {
                    Some(v) => Some(v@),
                    None => None,
                },
                forall|m: int| 0 <= m < ring@.len() ==> (#[trigger] ring@[m]) < nodes@.len(),
                faces_attached == tally(nodes@, self.spec_normals(), ring@, pos_b, k as int).faces,
                attribute_at_a == tally(nodes@, self.spec_normals(), ring@, pos_b, k as int).attr_a,
                attribute_at_b == tally(nodes@, self.spec_normals(), ring@, pos_b, k as int).attr_b,
                exact == (V::obeys_eq_spec() || self.spec_normals() is None),
                exact ==> edge_weight == tally(
                    nodes@,
                    self.spec_normals(),
                    ring@,
                    pos_b,
                    k as int,
                ).weight,
                faces_attached <= 3 * k,
                edge_weight <= 60 * k,
                normal_slots matches Some(n) ==> (attribute_at_a matches Some(x) ==> x < n) && (
                attribute_at_b matches Some(x) ==> x < n),
            decreases ring@.len() - k,
        {
            let s = ring[k];
            if !nodes[s as usize].is_removed {
                proof {
                    lemma_linked_node(nodes@, rings, slots, normal_slots, faces_total, s as int);
                    let r1 = next(nodes@, s as int);
                    lemma_linked_node(nodes@, rings, slots, normal_slots, faces_total, r1);
                    lemma_linked_node(nodes@, rings, slots, normal_slots, faces_total, next(nodes@, r1));
                }
                let mut c = s;
                let mut step: usize = 0;
                let ghost t0 = tally(nodes@, self.spec_normals(), ring@, pos_b, k as int);
                let ghost mut t = t0;
                while step < 3
                    invariant
                        step <= 3,
                        k < ring@.len(),
                        ring@.len() <= nodes@.len(),
                        s == ring@[k as int],
                        nodes@ == self.spec_nodes(),
                        nodes@.len() <= u32::MAX,
                        live(nodes@, s as int),
                        live(nodes@, next(nodes@, s as int)),
                        live(nodes@, next(nodes@, next(nodes@, s as int))),
                        self.spec_normals() == match *normals {
                            Some(v) => Some(v@),
                            None => None,
                        },
                        normal_slots == self.normal_slots(),
                        normal_slots matches Some(n) ==> nodes@[s as int].normal < n && nodes@[next(
                            nodes@,
                            s as int,
                        )].normal < n && nodes@[next(nodes@, next(nodes@, s as int))].normal < n,
                        c == (if step == 0 {
                            s as int
                        } else if step == 1 {
                            next(nodes@, s as int)
                        } else {
                            next(nodes@, next(nodes@, s as int))
                        }),
                        t == (if step == 0 {
                            t0
                        } else if step == 1 {
                            look(nodes@, self.spec_normals(), t0, s as int, s as int, pos_b)
                        } else if step == 2 {
                            look(
                                nodes@,
                                self.spec_normals(),
                                look(nodes@, self.spec_normals(), t0, s as int, s as int, pos_b),
                                s as int,
                                next(nodes@, s as int),
                                pos_b,
                            )
                        } else {
                            look(
                                nodes@,
                                self.spec_normals(),
                                look(
                                    nodes@,
                                    self.spec_normals(),
                                    look(nodes@, self.spec_normals(), t0, s as int, s as int, pos_b),
                                    s as int,
                                    next(nodes@, s as int),
                                    pos_b,
                                ),
                                s as int,
                                next(nodes@, next(nodes@, s as int)),
                                pos_b,
                            )
                        }),
                        faces_attached == t.faces,
                        attribute_at_a == t.attr_a,
                        attribute_at_b == t.attr_b,
                        exact == (V::obeys_eq_spec() || self.spec_normals() is None),
                        exact ==> edge_weight == t.weight,
                        faces_attached <= 3 * k + step,
                        edge_weight <= 60 * k + 20 * step,
                        normal_slots matches Some(n) ==> (attribute_at_a matches Some(x) ==> x < n)
                            && (attribute_at_b matches Some(x) ==> x < n),
                    decreases 3 - step,
                {
                    let corner = nodes[c as usize];
                    if corner.position == pos_b {
                        faces_attached = faces_attached + 1;
                        let at_s = nodes[s as usize].normal;
                        if same_normal(normals, attribute_at_b, corner.normal) {
                            edge_weight = edge_weight + 10;
                        }
                        if same_normal(normals, attribute_at_a, at_s) {
                            edge_weight = edge_weight + 10;
                        }
                        attribute_at_b = Some(corner.normal);
                        attribute_at_a = Some(at_s);
                    }
                    proof {
                        t = look(nodes@, self.spec_normals(), t, s as int, c as int, pos_b);
                    }
                    if step < 2 {
                        c = corner.relative;
                    }
                    step = step + 1;
                }
            }
            k = k + 1;
        }
        if faces_attached < 2 {
            edge_weight = edge_weight + 100;
        }
        edge_weight
    }
}

} // verus!
