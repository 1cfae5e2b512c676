use vstd::prelude::*;
use super::collapse::{
    brought_up, collapse_of, doomed, flags_face, follows, lemma_collapse_done, lemma_flag_face,
    lemma_follows_start, lemma_scan_end, lemma_scan_look, lemma_scan_removed, lemma_scan_skip,
    lemma_scan_start, lemma_walk_live, next, noted, ring_at, scan_inv, tracks,
};
use super::node::Node;
use super::topology::{
    clean, is_ring, lemma_kept_members, lemma_kept_two, lemma_linked_node, lemma_linked_ring,
    lemma_relink_keeps_linked, lemma_ring_of, lemma_rotate_ring, lemma_survivors_distinct,
    lemma_survivors_push, linked, live, merged_rings, relinks, rotate, same_faces, succ, survivors,
};
use super::validate::{
    check_nodes, count_faces, fits, lemma_fits_locally, thread_rings, well_formed,
};
use crate::utils::tables::{map_entries, map_insert, map_remove, IndexMap};

verus! {

/// A triangle mesh with one node per triangle corner.
///
/// The nodes are linked into triangles by `relative` and into one ring per
/// vertex by `sibling`. `face_count` is the number of triangles that have not
/// been removed. The attribute arrays are indexed by the `position` and
/// `normal` fields of the nodes.
pub struct ConnectedMesh<V> {
    nodes: Vec<Node>,
    face_count: u32,
    positions: Vec<V>,
    normals: Option<Vec<V>>,
    rings: Ghost<Seq<Seq<u32>>>,
}

impl<V> Default for ConnectedMesh<V> {
    /// The mesh without nodes and without attributes.
    fn default() -> (mesh: Self)
        ensures
            mesh.wf(),
            mesh.spec_nodes().len() == 0,
            mesh.spec_positions().len() == 0,
            mesh.spec_normals() is None,
            mesh.spec_face_count() == 0,
    {
        proof {
            reveal(linked);
        }
        ConnectedMesh {
            nodes: Vec::new(),
            face_count: 0,
            positions: Vec::new(),
            normals: None,
            rings: Ghost(Seq::empty()),
        }
    }
}

/// Walks the `sibling` links from `start` until they lead back to it, and
/// returns the nodes met, `start` first.
pub(crate) fn collect_ring(
    nodes: &Vec<Node>,
    start: u32,
    Ghost(ring): Ghost<Seq<u32>>,
    Ghost(p): Ghost<int>,
) -> (out: Vec<u32>)
    requires
        is_ring(nodes@, ring, p),
        ring.contains(start),
    ensures
        out@ == rotate(ring, ring.index_of(start)),
{
    let ghost k0 = ring.index_of(start);
    let ghost len = ring.len() as int;
    let ghost rot = rotate(ring, k0);
    proof {
        lemma_rotate_ring(nodes@, ring, p, k0);
    }
    let mut out: Vec<u32> = Vec::new();
    let mut cur: u32 = start;
    let ghost mut j: int = 0;
    loop
        invariant_except_break
            0 <= j < len,
            cur == rot[j],
            out@ == rot.take(j),
        invariant
            is_ring(nodes@, rot, p),
            rot.len() == len,
            rot[0] == start,
        ensures
            out@ == rot,
        decreases len - j,
    {
        out.push(cur);
        assert(out@ == rot.take(j + 1));
        assert(nodes@[rot[j] as int].sibling == rot[succ(j, len)]);
        let next = nodes[cur as usize].sibling;
        proof {
            j = j + 1;
        }
        if next == start {
            assert(j == len);
            assert(rot.take(len) == rot);
            break ;
        }
        cur = next;
    }
    out
}

/// The entries of `ring` that have not been removed, in the same order.
fn keep_live(nodes: &Vec<Node>, ring: &Vec<u32>) -> (kept: Vec<u32>)
    requires
        forall|k: int| 0 <= k < ring@.len() ==> (#[trigger] ring@[k]) < nodes@.len(),
    ensures
        kept@ == survivors(nodes@, ring@),
{
    let mut kept: Vec<u32> = Vec::new();
    let mut k: usize = 0;
    while k < ring.len()
        invariant
            k <= ring@.len(),
            kept@ == survivors(nodes@, ring@.take(k as int)),
            forall|m: int| 0 <= m < ring@.len() ==> (#[trigger] ring@[m]) < nodes@.len(),
        decreases ring@.len() - k,
    {
        let i = ring[k];
        proof {
            lemma_survivors_push(nodes@, ring@.take(k as int), i);
            assert(ring@.take(k as int).push(i) =~= ring@.take(k + 1));
        }
        if !nodes[i as usize].is_removed {
            kept.push(i);
        }
        k = k + 1;
    }
    assert(ring@.take(ring@.len() as int) =~= ring@);
    kept
}

/// Threads the nodes of `kept` into one cycle of `sibling` links and moves
/// them to `position`.
fn relink(nodes: &mut Vec<Node>, kept: &Vec<u32>, position: u32)
    requires
        kept@.no_duplicates(),
        forall|k: int| 0 <= k < kept@.len() ==> (#[trigger] kept@[k]) < old(nodes)@.len(),
    ensures
        relinks(old(nodes)@, final(nodes)@, kept@, position),
{
    let n = kept.len();
    let mut k: usize = 0;
    while k < n
        invariant
            k <= n,
            n == kept@.len(),
            nodes@.len() == old(nodes)@.len(),
            kept@.no_duplicates(),
            forall|m: int| 0 <= m < kept@.len() ==> (#[trigger] kept@[m]) < nodes@.len(),
            forall|m: int|
                0 <= m < k ==> #[trigger] nodes@[kept@[m] as int] == (Node {
                    sibling: kept@[succ(m, n as int)],
                    position,
                    ..old(nodes)@[kept@[m] as int]
                }),
            forall|m: int|
                k <= m < n ==> #[trigger] nodes@[kept@[m] as int] == old(nodes)@[kept@[m] as int],
            forall|i: int|
                0 <= i < nodes@.len() && !kept@.contains(i as u32) ==> #[trigger] nodes@[i] == old(
                    nodes,
                )@[i],
        decreases n - k,
    {
        let next = if k + 1 < n {
            kept[k + 1]
        } else {
            kept[0]
        };
        let i = kept[k] as usize;
        let ghost before = nodes@;
        nodes[i].sibling = next;
        nodes[i].position = position;
        proof {
            assert forall|m: int| 0 <= m < k + 1 implies #[trigger] nodes@[kept@[m] as int] == (Node {
                sibling: kept@[succ(m, n as int)],
                position,
                ..old(nodes)@[kept@[m] as int]
            }) by {
                if m < k {
                    assert(kept@[m] != kept@[k as int]);
                    assert(nodes@[kept@[m] as int] == before[kept@[m] as int]);
                }
            }
            assert forall|m: int| k + 1 <= m < n implies #[trigger] nodes@[kept@[m] as int] == old(
                nodes,
            )@[kept@[m] as int] by {
                assert(kept@[m] != kept@[k as int]);
                assert(nodes@[kept@[m] as int] == before[kept@[m] as int]);
            }
            assert forall|j: int|
                0 <= j < nodes@.len() && !kept@.contains(j as u32) implies #[trigger] nodes@[j]
                == old(nodes)@[j] by {
                assert(kept@[k as int] == i as u32);
                assert(j != i);
                assert(nodes@[j] == before[j]);
            }
        }
        k = k + 1;
    }
}

/// The length of an optional array.
pub open spec fn slots_of<V>(array: Option<Vec<V>>) -> Option<int> {
    match array {
        Some(v) => Some(v@.len() as int),
        None => None,
    }
}

/// The sequence behind an optional array.
pub open spec fn seq_of<V>(array: Option<Vec<V>>) -> Option<Seq<V>> {
    match array {
        Some(v) => Some(v@),
        None => None,
    }
}

/// The entries of the table, where there is one.
pub open spec fn table_entries(table: Option<IndexMap>) -> Option<Map<u64, u32>> {
    match table {
        Some(m) => Some(map_entries(m)),
        None => None,
    }
}

/// Sets the entry of `position` to `node`, or takes it out where `node` is
/// `None`. Without a table nothing is done.
fn note(table: &mut Option<IndexMap>, position: u32, node: Option<u32>)
    ensures
        table_entries(*final(table)) == match table_entries(*old(table)) {
            Some(m) => Some(noted(m, position, node)),
            None => None,
        },
{
    match table {
        Some(map) => {
            match node {
                Some(n) => {
                    map_insert(map, position as u64, n);
                },
                None => {
                    map_remove(map, position as u64);
                },
            }
        },
        None => {},
    }
}

impl<V> ConnectedMesh<V> {
    /// The node array.
    pub closed spec fn spec_nodes(&self) -> Seq<Node> {
        self.nodes@
    }

    /// The rings: for each position slot, the corners that sit on it, in the
    /// order of their `sibling` links.
    pub closed spec fn spec_rings(&self) -> Seq<Seq<u32>> {
        self.rings@
    }

    /// The positions, one for each position slot.
    pub closed spec fn spec_positions(&self) -> Seq<V> {
        self.positions@
    }

    /// The normals, one for each normal slot, where the mesh has normals.
    pub closed spec fn spec_normals(&self) -> Option<Seq<V>> {
        match self.normals {
            Some(v) => Some(v@),
            None => None,
        }
    }

    /// The number of triangles that have not been removed.
    pub closed spec fn spec_face_count(&self) -> u32 {
        self.face_count
    }

    /// The length of the normal array, where the mesh has one.
    pub open spec fn normal_slots(&self) -> Option<int> {
        match self.spec_normals() {
            Some(s) => Some(s.len() as int),
            None => None,
        }
    }

    /// The invariant that also holds in the middle of an edge collapse: see
    /// [`linked`].
    pub open spec fn linked(&self) -> bool {
        linked(
            self.spec_nodes(),
            self.spec_rings(),
            self.spec_positions().len() as int,
            self.normal_slots(),
            self.spec_face_count() as int,
        )
    }

    /// The mesh is well formed: it is linked, and no ring holds a removed
    /// node.
    pub open spec fn wf(&self) -> bool {
        &&& self.linked()
        &&& clean(self.spec_nodes(), self.spec_rings())
    }

    /// `node` is a member of the ring of its position.
    pub open spec fn in_ring(&self, node: u32) -> bool {
        &&& node < self.spec_nodes().len()
        &&& self.spec_nodes()[node as int].position < self.spec_rings().len()
        &&& self.spec_rings()[self.spec_nodes()[node as int].position as int].contains(node)
    }

    /// The ring that `node` belongs to, read from `node` onwards.
    pub open spec fn ring_from(&self, node: u32) -> Seq<u32> {
        let ring = self.spec_rings()[self.spec_nodes()[node as int].position as int];
        rotate(ring, ring.index_of(node))
    }

    /// Everything but the nodes and the rings is the same in both meshes.
    pub open spec fn same_attributes(&self, other: &Self) -> bool {
        &&& self.spec_positions() == other.spec_positions()
        &&& self.spec_normals() == other.spec_normals()
        &&& self.spec_face_count() == other.spec_face_count()
    }

    /// Puts a mesh together from its parts.
    pub(crate) fn assemble(
        nodes: Vec<Node>,
        face_count: u32,
        positions: Vec<V>,
        normals: Option<Vec<V>>,
        Ghost(rings): Ghost<Seq<Seq<u32>>>,
    ) -> (mesh: Self)
        requires
            linked(
                nodes@,
                rings,
                positions@.len() as int,
                match normals {
                    Some(v) => Some(v@.len() as int),
                    None => None,
                },
                face_count as int,
            ),
            clean(nodes@, rings),
        ensures
            mesh.wf(),
            mesh.spec_nodes() == nodes@,
            mesh.spec_rings() == rings,
            mesh.spec_positions() == positions@,
            mesh.spec_normals() == match normals {
                Some(v) => Some(v@),
                None => None,
            },
            mesh.spec_face_count() == face_count,
    {
        ConnectedMesh { nodes, face_count, positions, normals, rings: Ghost(rings) }
    }

    /// Makes a mesh of a node array, the attribute arrays that the nodes
    /// refer to, and the number of triangles.
    ///
    /// The parts make a mesh exactly if they are those of a well-formed
    /// mesh: every live node is a corner of a live triangle with its
    /// indices in range, the `sibling` links form one cycle through the live
    /// nodes of each position, and `face_count` is the number of live
    /// triangles. Otherwise `None` is returned.
    pub fn from_parts(
        positions: Vec<V>,
        normals: Option<Vec<V>>,
        nodes: Vec<Node>,
        face_count: u32,
    ) -> (r: Option<Self>)
        ensures
            r is Some <==> well_formed(
                nodes@,
                positions@.len() as int,
                slots_of(normals),
                face_count as int,
            ),
            r matches Some(mesh) ==> {
                &&& mesh.wf()
                &&& mesh.spec_nodes() == nodes@
                &&& mesh.spec_positions() == positions@
                &&& mesh.spec_normals() == seq_of(normals)
                &&& mesh.spec_face_count() == face_count
            },
    {
        let ghost slots = positions@.len() as int;
        let ghost normal_slots = slots_of(normals);
        let ghost faces = face_count as int;
        proof {
            if well_formed(nodes@, slots, normal_slots, faces) {
                let rings = choose|rings: Seq<Seq<u32>>| fits(nodes@, rings, slots, normal_slots, faces);
                super::topology::lemma_linked_parts(nodes@, rings, slots, normal_slots, faces);
                lemma_fits_locally(nodes@, rings, slots, normal_slots, faces);
            }
        }
        if nodes.len() > 0xffff_ffff {
            return None;
        }
        let normal_count = match &normals {
            Some(v) => Some(v.len()),
            None => None,
        };
        if !check_nodes(&nodes, positions.len(), normal_count) {
            return None;
        }
        if count_faces(&nodes) != face_count as usize {
            return None;
        }
        let (ok, rings) = thread_rings(&nodes, positions.len(), Ghost(normal_slots), Ghost(faces));
        if !ok {
            return None;
        }
        Some(ConnectedMesh::assemble(nodes, face_count, positions, normals, rings))
    }

    /// The node array.
    pub fn nodes(&self) -> (r: &Vec<Node>)
        ensures
            r@ == self.spec_nodes(),
    {
        &self.nodes
    }

    /// The number of triangles that have not been removed.
    pub fn face_count(&self) -> (r: u32)
        ensures
            r == self.spec_face_count(),
    {
        self.face_count
    }

    /// The positions, one for each position slot.
    pub fn positions(&self) -> (r: &Vec<V>)
        ensures
            r@ == self.spec_positions(),
    {
        &self.positions
    }

    /// Puts `value` into the position slot of `node_index`: the position of
    /// every corner of its vertex.
    pub fn set_position(&mut self, node_index: u32, value: V)
        requires
            old(self).linked(),
            live(old(self).spec_nodes(), node_index as int),
        ensures
            final(self).spec_positions() == old(self).spec_positions().update(
                old(self).spec_nodes()[node_index as int].position as int,
                value,
            ),
            final(self).spec_nodes() == old(self).spec_nodes(),
            final(self).spec_rings() == old(self).spec_rings(),
            final(self).spec_normals() == old(self).spec_normals(),
            final(self).spec_face_count() == old(self).spec_face_count(),
            final(self).linked(),
            old(self).wf() ==> final(self).wf(),
    {
        proof {
            lemma_linked_node(
                self.nodes@,
                self.rings@,
                self.positions@.len() as int,
                self.normal_slots(),
                self.face_count as int,
                node_index as int,
            );
        }
        let slot = self.nodes[node_index as usize].position as usize;
        self.positions[slot] = value;
    }

    /// The normals, one for each normal slot, where the mesh has normals.
    pub fn normals(&self) -> (r: &Option<Vec<V>>)
        ensures
            self.spec_normals() == match *r {
                Some(v) => Some(v@),
                None => None,
            },
    {
        &self.normals
    }

    /// Re-threads the ring of `node_index` so that it skips the nodes that
    /// have been removed, and returns the first node that is left, or `None`
    /// if none is.
    pub fn reconnect_sibling(&mut self, node_index: u32) -> (r: Option<u32>)
        requires
            old(self).linked(),
            old(self).in_ring(node_index),
        ensures
            final(self).linked(),
            final(self).same_attributes(old(self)),
            same_faces(old(self).spec_nodes(), final(self).spec_nodes()),
            ({
                let p = old(self).spec_nodes()[node_index as int].position;
                let kept = survivors(old(self).spec_nodes(), old(self).ring_from(node_index));
                &&& relinks(old(self).spec_nodes(), final(self).spec_nodes(), kept, p)
                &&& final(self).spec_rings() == old(self).spec_rings().update(p as int, kept)
                &&& forall|k: int|
                    0 <= k < kept.len() ==> live(final(self).spec_nodes(), #[trigger] kept[k] as int)
                &&& r == if kept.len() == 0 {
                    None
                } else {
                    Some(kept[0])
                }
            }),
    {
        let p = self.nodes[node_index as usize].position;
        let ghost ring = self.rings@[p as int];
        let ghost before = self.nodes@;
        let ghost rings0 = self.rings@;
        let ghost slots = self.positions@.len() as int;
        let ghost normal_slots = self.normal_slots();
        let ghost faces = self.face_count as int;
        proof {
            lemma_ring_of(before, rings0, slots, normal_slots, faces, p, node_index);
        }
        let walk = collect_ring(&self.nodes, node_index, Ghost(ring), Ghost(p as int));
        let kept = keep_live(&self.nodes, &walk);
        proof {
            lemma_survivors_distinct(before, walk@);
            lemma_kept_members(before, rings0, slots, normal_slots, faces, p, walk@);
        }
        relink(&mut self.nodes, &kept, p);
        proof {
            self.rings = Ghost(rings0.update(p as int, kept@));
            lemma_relink_keeps_linked(
                before,
                self.nodes@,
                rings0,
                kept@,
                p,
                p,
                p,
                slots,
                normal_slots,
                faces,
            );
            assert(merged_rings(rings0, kept@, p, p, p) =~= rings0.update(p as int, kept@));
        }
        if kept.len() == 0 {
            None
        } else {
            Some(kept[0])
        }
    }

    /// Threads what is left of the rings of `node_index_a` and of
    /// `node_index_b` into one ring, the nodes of the first ring before those
    /// of the second, and moves every node of it to `position`. Returns the
    /// first node of the new ring, or `None` if no node is left.
    pub fn reconnect_siblings(&mut self, node_index_a: u32, node_index_b: u32, position: u32) -> (r:
        Option<u32>)
        requires
            old(self).linked(),
            old(self).in_ring(node_index_a),
            old(self).in_ring(node_index_b),
            old(self).spec_nodes()[node_index_a as int].position != old(
                self,
            ).spec_nodes()[node_index_b as int].position,
            position == old(self).spec_nodes()[node_index_a as int].position || position == old(
                self,
            ).spec_nodes()[node_index_b as int].position,
        ensures
            final(self).linked(),
            final(self).same_attributes(old(self)),
            same_faces(old(self).spec_nodes(), final(self).spec_nodes()),
            ({
                let pa = old(self).spec_nodes()[node_index_a as int].position;
                let pb = old(self).spec_nodes()[node_index_b as int].position;
                let kept = survivors(old(self).spec_nodes(), old(self).ring_from(node_index_a))
                    + survivors(old(self).spec_nodes(), old(self).ring_from(node_index_b));
                &&& relinks(old(self).spec_nodes(), final(self).spec_nodes(), kept, position)
                &&& final(self).spec_rings() == merged_rings(
                    old(self).spec_rings(),
                    kept,
                    pa,
                    pb,
                    position,
                )
                &&& forall|k: int|
                    0 <= k < kept.len() ==> live(final(self).spec_nodes(), #[trigger] kept[k] as int)
                &&& forall|x: u32|
                    kept.contains(x) <==> (live(old(self).spec_nodes(), x as int) && (old(
                        self,
                    ).spec_nodes()[x as int].position == pa || old(
                        self,
                    ).spec_nodes()[x as int].position == pb))
                &&& r == if kept.len() == 0 {
                    None
                } else {
                    Some(kept[0])
                }
            }),
    {
        let pa = self.nodes[node_index_a as usize].position;
        let pb = self.nodes[node_index_b as usize].position;
        let ghost before = self.nodes@;
        let ghost rings0 = self.rings@;
        let ghost ring_a = rings0[pa as int];
        let ghost ring_b = rings0[pb as int];
        let ghost slots = self.positions@.len() as int;
        let ghost normal_slots = self.normal_slots();
        let ghost faces = self.face_count as int;
        proof {
            lemma_ring_of(before, rings0, slots, normal_slots, faces, pa, node_index_a);
            lemma_ring_of(before, rings0, slots, normal_slots, faces, pb, node_index_b);
        }
        let walk_a = collect_ring(&self.nodes, node_index_a, Ghost(ring_a), Ghost(pa as int));
        let walk_b = collect_ring(&self.nodes, node_index_b, Ghost(ring_b), Ghost(pb as int));
        let mut kept = keep_live(&self.nodes, &walk_a);
        let mut kept_b = keep_live(&self.nodes, &walk_b);
        kept.append(&mut kept_b);
        proof {
            lemma_kept_two(before, rings0, slots, normal_slots, faces, pa, pb, walk_a@, walk_b@);
        }
        relink(&mut self.nodes, &kept, position);
        proof {
            self.rings = Ghost(merged_rings(rings0, kept@, pa, pb, position));
            lemma_relink_keeps_linked(
                before,
                self.nodes@,
                rings0,
                kept@,
                pa,
                pb,
                position,
                slots,
                normal_slots,
                faces,
            );
        }
        if kept.len() == 0 {
            None
        } else {
            Some(kept[0])
        }
    }

    /// Removes the triangle of `s`, a corner at the first endpoint of the
    /// edge being collapsed, and takes its third corner `c` out of the ring
    /// of its vertex.
    fn remove_face(
        &mut self,
        s: u32,
        c: u32,
        position_to_node: &mut Option<IndexMap>,
        Ghost(first): Ghost<Seq<Node>>,
        Ghost(first_rings): Ghost<Seq<Seq<u32>>>,
        Ghost(first_faces): Ghost<int>,
        Ghost(pa): Ghost<u32>,
        Ghost(pb): Ghost<u32>,
        Ghost(walk): Ghost<Seq<u32>>,
        Ghost(idx): Ghost<int>,
        Ghost(first_table): Ghost<Option<Map<u64, u32>>>,
    )
        requires
            old(self).linked(),
            linked(
                first,
                first_rings,
                old(self).positions@.len() as int,
                old(self).normal_slots(),
                first_faces,
            ),
            scan_inv(first, first_rings, old(self).nodes@, old(self).rings@, pa, pb, walk, idx),
            pa != pb,
            pa < old(self).positions@.len(),
            pb < old(self).positions@.len(),
            is_ring(first, walk, pa as int),
            forall|k: int| 0 <= k < walk.len() ==> live(first, #[trigger] walk[k] as int),
            0 <= idx < walk.len(),
            s == walk[idx],
            doomed(first, s as int, pa, pb),
            c == next(first, s as int) || c == next(first, next(first, s as int)),
            first[c as int].position != pa,
            first[c as int].position != pb,
            follows(
                first_rings,
                old(self).nodes@,
                first_table,
                table_entries(*old(position_to_node)),
                pa,
                pb,
            ),
        ensures
            final(self).linked(),
            final(self).positions@ == old(self).positions@,
            final(self).spec_normals() == old(self).spec_normals(),
            final(self).face_count < old(self).face_count,
            scan_inv(first, first_rings, final(self).nodes@, final(self).rings@, pa, pb, walk, idx + 1),
            follows(
                first_rings,
                final(self).nodes@,
                first_table,
                table_entries(*final(position_to_node)),
                pa,
                pb,
            ),
    {
        let ghost nodes0 = self.nodes@;
        let ghost rings0 = self.rings@;
        let ghost faces0 = self.face_count as int;
        let ghost slots = self.positions@.len() as int;
        let ghost normal_slots = self.normal_slots();
        proof {
            lemma_scan_look(
                first,
                first_rings,
                nodes0,
                rings0,
                slots,
                normal_slots,
                faces0,
                pa,
                pb,
                walk,
                idx,
            );
        }
        let r1 = self.nodes[s as usize].relative;
        let r2 = self.nodes[r1 as usize].relative;
        let pos_c = self.nodes[c as usize].position;
        self.nodes[s as usize].is_removed = true;
        self.nodes[r1 as usize].is_removed = true;
        self.nodes[r2 as usize].is_removed = true;
        let ghost mid = self.nodes@;
        proof {
            assert(flags_face(nodes0, mid, s as int));
            lemma_flag_face(nodes0, mid, rings0, s as int, slots, normal_slots, faces0);
        }
        self.face_count = self.face_count - 1;
        let left = self.reconnect_sibling(c);
        let ghost table0 = table_entries(*position_to_node);
        note(position_to_node, pos_c, left);
        proof {
            lemma_scan_removed(
                first,
                first_rings,
                nodes0,
                mid,
                self.nodes@,
                rings0,
                slots,
                normal_slots,
                first_faces,
                faces0,
                pa,
                pb,
                walk,
                idx,
                c,
                first_table,
                table0,
            );
        }
    }

    /// Merges the vertex of `node_index_b` into the vertex of
    /// `node_index_a`.
    ///
    /// Every triangle with one corner at each of the two vertices and its
    /// third corner elsewhere is removed, and its third corner is taken out
    /// of the ring of its vertex. What is left of the two rings becomes one
    /// ring at the position of `node_index_a`. The first node of that ring is
    /// returned, or `None` if no corner is left at either vertex.
    ///
    /// A table of one live corner per position, if one is handed in, is
    /// brought up to date.
    #[verifier::rlimit(30)]
    pub fn collapse_edge_to_a(
        &mut self,
        node_index_a: u32,
        node_index_b: u32,
        position_to_node: &mut Option<IndexMap>,
    ) -> (r: Option<u32>)
        requires
            old(self).wf(),
            live(old(self).spec_nodes(), node_index_a as int),
            live(old(self).spec_nodes(), node_index_b as int),
            old(self).spec_nodes()[node_index_a as int].position != old(
                self,
            ).spec_nodes()[node_index_b as int].position,
            table_entries(*old(position_to_node)) matches Some(m) ==> tracks(
                old(self).spec_nodes(),
                m,
            ),
        ensures
            final(self).wf(),
            final(self).spec_positions() == old(self).spec_positions(),
            final(self).spec_normals() == old(self).spec_normals(),
            final(self).spec_face_count() <= old(self).spec_face_count(),
            collapse_of(
                old(self).spec_nodes(),
                old(self).spec_rings(),
                final(self).spec_nodes(),
                final(self).spec_rings(),
                node_index_a,
                node_index_b,
                r,
            ),
            brought_up(
                old(self).spec_rings(),
                final(self).spec_nodes(),
                table_entries(*old(position_to_node)),
                table_entries(*final(position_to_node)),
                old(self).spec_nodes()[node_index_a as int].position,
                old(self).spec_nodes()[node_index_b as int].position,
                r,
            ),
    {
        let pos_a = self.nodes[node_index_a as usize].position;
        let pos_b = self.nodes[node_index_b as usize].position;
        let ghost first = self.nodes@;
        let ghost first_rings = self.rings@;
        let ghost first_faces = self.face_count as int;
        let ghost slots = self.positions@.len() as int;
        let ghost normal_slots = self.normal_slots();
        proof {
            lemma_linked_node(first, first_rings, slots, normal_slots, first_faces, node_index_a as int);
            lemma_linked_node(first, first_rings, slots, normal_slots, first_faces, node_index_b as int);
            lemma_linked_ring(first, first_rings, slots, normal_slots, first_faces, pos_a as int);
        }
        let walk = collect_ring(
            &self.nodes,
            node_index_a,
            Ghost(first_rings[pos_a as int]),
            Ghost(pos_a as int),
        );
        let ghost first_table = table_entries(*position_to_node);
        proof {
            lemma_walk_live(first, first_rings, pos_a, node_index_a);
            lemma_scan_start(first, first_rings, slots, normal_slots, first_faces, pos_a, pos_b, walk@);
            lemma_follows_start(first_rings, first, first_table, pos_a, pos_b);
        }
        self.scan_faces(
            &walk,
            pos_a,
            pos_b,
            position_to_node,
            Ghost(first),
            Ghost(first_rings),
            Ghost(first_faces),
            Ghost(first_table),
        );
        let ghost nodes1 = self.nodes@;
        let ghost rings1 = self.rings@;
        proof {
            lemma_scan_end(
                first,
                first_rings,
                nodes1,
                rings1,
                slots,
                normal_slots,
                first_faces,
                pos_a,
                pos_b,
                walk@,
                walk@.len() as int,
                node_index_a,
                node_index_b,
            );
        }
        let merged = self.reconnect_siblings(node_index_a, node_index_b, pos_a);
        let ghost table1 = table_entries(*position_to_node);
        note(position_to_node, pos_a, merged);
        note(position_to_node, pos_b, None);
        proof {
            lemma_collapse_done(
                first,
                first_rings,
                nodes1,
                self.nodes@,
                rings1,
                slots,
                normal_slots,
                first_faces,
                self.face_count as int,
                node_index_a,
                node_index_b,
                walk@,
                survivors(nodes1, ring_at(nodes1, rings1, node_index_a)) + survivors(
                    nodes1,
                    ring_at(nodes1, rings1, node_index_b),
                ),
                first_table,
                table1,
            );
        }
        merged
    }

    /// Looks at the triangle of every corner in `walk`, the ring of the
    /// first endpoint, and removes those that span the edge.
    fn scan_faces(
        &mut self,
        walk: &Vec<u32>,
        pos_a: u32,
        pos_b: u32,
        position_to_node: &mut Option<IndexMap>,
        Ghost(first): Ghost<Seq<Node>>,
        Ghost(first_rings): Ghost<Seq<Seq<u32>>>,
        Ghost(first_faces): Ghost<int>,
        Ghost(first_table): Ghost<Option<Map<u64, u32>>>,
    )
        requires
            old(self).linked(),
            old(self).face_count <= first_faces,
            linked(
                first,
                first_rings,
                old(self).positions@.len() as int,
                old(self).normal_slots(),
                first_faces,
            ),
            scan_inv(first, first_rings, old(self).nodes@, old(self).rings@, pos_a, pos_b, walk@, 0),
            pos_a != pos_b,
            pos_a < old(self).positions@.len(),
            pos_b < old(self).positions@.len(),
            is_ring(first, walk@, pos_a as int),
            forall|k: int| 0 <= k < walk@.len() ==> live(first, #[trigger] walk@[k] as int),
            follows(
                first_rings,
                old(self).nodes@,
                first_table,
                table_entries(*old(position_to_node)),
                pos_a,
                pos_b,
            ),
        ensures
            final(self).linked(),
            final(self).positions@ == old(self).positions@,
            final(self).spec_normals() == old(self).spec_normals(),
            final(self).face_count <= first_faces,
            scan_inv(
                first,
                first_rings,
                final(self).nodes@,
                final(self).rings@,
                pos_a,
                pos_b,
                walk@,
                walk@.len() as int,
            ),
            follows(
                first_rings,
                final(self).nodes@,
                first_table,
                table_entries(*final(position_to_node)),
                pos_a,
                pos_b,
            ),
    {
        let ghost slots = self.positions@.len() as int;
        let ghost normal_slots = self.normal_slots();
        let mut idx: usize = 0;
        while idx < walk.len()
            invariant
                idx <= walk@.len(),
                self.positions@ == old(self).positions@,
                self.spec_normals() == old(self).spec_normals(),
                self.normal_slots() == normal_slots,
                slots == self.positions@.len(),
                self.linked(),
                self.face_count <= first_faces,
                pos_a != pos_b,
                pos_a < slots,
                pos_b < slots,
                linked(first, first_rings, slots, normal_slots, first_faces),
                scan_inv(first, first_rings, self.nodes@, self.rings@, pos_a, pos_b, walk@, idx as int),
                is_ring(first, walk@, pos_a as int),
                forall|k: int| 0 <= k < walk@.len() ==> live(first, #[trigger] walk@[k] as int),
                follows(
                    first_rings,
                    self.nodes@,
                    first_table,
                    table_entries(*position_to_node),
                    pos_a,
                    pos_b,
                ),
            decreases walk@.len() - idx,
        {
            let s = walk[idx];
            proof {
                lemma_scan_look(
                    first,
                    first_rings,
                    self.nodes@,
                    self.rings@,
                    slots,
                    normal_slots,
                    self.face_count as int,
                    pos_a,
                    pos_b,
                    walk@,
                    idx as int,
                );
            }
            let r1 = self.nodes[s as usize].relative;
            let r2 = self.nodes[r1 as usize].relative;
            let pos_r1 = self.nodes[r1 as usize].position;
            let pos_r2 = self.nodes[r2 as usize].position;
            let touched = pos_r1 == pos_b || pos_r2 == pos_b;
            let third: Option<u32> = if pos_r2 != pos_a && pos_r2 != pos_b {
                Some(r2)
            } else if pos_r1 != pos_a && pos_r1 != pos_b {
                Some(r1)
            } else {
                None
            };
            let mut removed = false;
            if touched {
                if let Some(c) = third {
                    self.remove_face(
                        s,
                        c,
                        position_to_node,
                        Ghost(first),
                        Ghost(first_rings),
                        Ghost(first_faces),
                        Ghost(pos_a),
                        Ghost(pos_b),
                        Ghost(walk@),
                        Ghost(idx as int),
                        Ghost(first_table),
                    );
                    removed = true;
                }
            }
            proof {
                if !removed {
                    lemma_scan_skip(
                        first,
                        first_rings,
                        self.nodes@,
                        self.rings@,
                        pos_a,
                        pos_b,
                        walk@,
                        idx as int,
                    );
                }
            }
            idx = idx + 1;
        }
    }
}

} // verus!
