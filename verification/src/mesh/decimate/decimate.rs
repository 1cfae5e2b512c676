use vstd::prelude::*;
use super::edge::Edge;
use super::edge_hasher::EdgeHasher;
use super::queue::{
    is_top, queue_change_priority, queue_entries, queue_get_priority, queue_new, queue_pop,
    queue_push,
};
use crate::mesh::collapse::{brought_up, collapse_of, next, tracks};
use crate::mesh::connected_mesh::ConnectedMesh;
use crate::mesh::node::Node;
use crate::mesh::topology::{lemma_linked_node, linked, live};
use crate::utils::tables::{map_entries, map_get, map_insert, map_new, IndexMap};

verus! {

/// What one step of a decimation run did.
#[derive(Debug, Copy, Clone, PartialEq)]
pub enum Step {
    /// The mesh has no more triangles than asked for: the run is over.
    Done,
    /// The queue is empty: no edge is left to collapse.
    Exhausted,
    /// The edge taken from the queue was dropped: one of its ends has no
    /// corner left, or its two ends are the same position.
    Stale(Edge),
    /// The edge was collapsed and no corner is left at its ends.
    Degenerate(Edge),
    /// The edge was collapsed: `node` is a corner of the merged vertex,
    /// which sits at `edge.pos_a`.
    Collapsed { edge: Edge, node: u32 },
}

/// The state of a decimation run: the queue of edges with their
/// priorities, a table that names one live corner for each position in use,
/// and the number of triangles to stop at.
///
/// The run collapses the edge with the greatest priority first. The
/// priorities are the caller's: the caller scores the edges and performs
/// what a step asks for.
pub struct Decimator {
    queue: priority_queue::PriorityQueue<u64, u64, std::hash::BuildHasherDefault<EdgeHasher>>,
    position_to_node: Option<IndexMap>,
    target_triangle_count: u32,
}

/// The edge that a queue item stands for.
pub open spec fn edge_of_key(key: u64) -> Edge {
    Edge { pos_a: (key / 0x1_0000_0000) as u32, pos_b: (key % 0x1_0000_0000) as u32 }
}

/// The edge from corner `i` to the next corner of its triangle.
pub open spec fn edge_from(nodes: Seq<Node>, i: int) -> Edge {
    Edge { pos_a: nodes[i].position, pos_b: nodes[next(nodes, i)].position }
}

/// The queue holds the edges of the live triangles from their corners
/// below `n`, and nothing else.
pub open spec fn queues_edges(nodes: Seq<Node>, entries: Map<u64, u64>, n: int) -> bool {
    &&& forall|i: int|
        0 <= i < n && #[trigger] live(nodes, i) ==> entries.contains_key(
            edge_from(nodes, i).spec_key(),
        )
    &&& forall|k: u64| #[trigger]
        entries.contains_key(k) ==> exists|i: int|
            0 <= i < n && #[trigger] live(nodes, i) && edge_from(nodes, i).spec_key() == k
}

/// The table names, for each position with a live corner below `n`, the
/// last such corner, and holds nothing else.
pub open spec fn names_last(nodes: Seq<Node>, table: Map<u64, u32>, n: int) -> bool {
    &&& forall|q: u64| #[trigger]
        table.contains_key(q) ==> table[q] < n && live(nodes, table[q] as int)
            && nodes[table[q] as int].position == q
    &&& forall|i: int|
        0 <= i < n && #[trigger] live(nodes, i) ==> table.contains_key(nodes[i].position as u64)
            && table[nodes[i].position as u64] >= i
}

impl Decimator {
    /// The queue: the priority of each edge in it, by the edge's key.
    pub closed spec fn spec_queue(&self) -> Map<u64, u64> {
        queue_entries(self.queue)
    }

    /// The table of corners: one live corner for each position in use.
    pub closed spec fn spec_table(&self) -> Map<u64, u32> {
        match self.position_to_node {
            Some(m) => map_entries(m),
            None => Map::empty(),
        }
    }

    /// The number of triangles at which the run stops.
    pub closed spec fn spec_target(&self) -> u32 {
        self.target_triangle_count
    }

    /// The run has its table.
    pub closed spec fn has_table(&self) -> bool {
        self.position_to_node is Some
    }

    /// The state fits the mesh: the table names a live corner for each
    /// position that has one, and nothing else.
    pub open spec fn fits<V>(&self, mesh: &ConnectedMesh<V>) -> bool {
        &&& self.has_table()
        &&& tracks(mesh.spec_nodes(), self.spec_table())
    }

    /// Starts a run on `mesh` that is to stop at `target_triangle_count`
    /// triangles. Every edge of the mesh is queued with priority 0, and the
    /// table names the last corner at each position.
    pub fn new<V>(mesh: &ConnectedMesh<V>, target_triangle_count: u32) -> (run: Self)
        requires
            mesh.wf(),
        ensures
            run.fits(mesh),
            run.spec_target() == target_triangle_count,
            queues_edges(mesh.spec_nodes(), run.spec_queue(), mesh.spec_nodes().len() as int),
            forall|k: u64| #[trigger] run.spec_queue().contains_key(k) ==> run.spec_queue()[k] == 0,
            names_last(mesh.spec_nodes(), run.spec_table(), mesh.spec_nodes().len() as int),
    {
        let nodes = mesh.nodes();
        let mut queue = queue_new();
        let mut table = map_new();
        let ghost rings = mesh.spec_rings();
        let ghost slots = mesh.spec_positions().len() as int;
        let ghost normal_slots = mesh.normal_slots();
        let ghost faces = mesh.spec_face_count() as int;
        let mut i: usize = 0;
        while i < nodes.len()
            invariant
                i <= nodes@.len(),
                linked(nodes@, rings, slots, normal_slots, faces),
                queues_edges(nodes@, queue_entries(queue), i as int),
                forall|k: u64| #[trigger]
                    queue_entries(queue).contains_key(k) ==> queue_entries(queue)[k] == 0,
                names_last(nodes@, map_entries(table), i as int),
            decreases nodes@.len() - i,
        {
            if !nodes[i].is_removed {
                proof {
                    lemma_linked_node(nodes@, rings, slots, normal_slots, faces, i as int);
                }
                let ghost q0 = queue_entries(queue);
                let ghost t0 = map_entries(table);
                let other = nodes[nodes[i].relative as usize].position;
                let edge = Edge::new(nodes[i].position, other);
                queue_push(&mut queue, edge.key(), 0);
                map_insert(&mut table, nodes[i].position as u64, i as u32);
                proof {
                    let q1 = queue_entries(queue);
                    assert forall|k: u64| #[trigger] q1.contains_key(k) implies exists|j: int|
                        0 <= j < i + 1 && #[trigger] live(nodes@, j) && edge_from(nodes@, j).spec_key()
                            == k by {
                        if k == edge.spec_key() {
                            assert(live(nodes@, i as int) && edge_from(nodes@, i as int).spec_key() == k);
                        } else {
                            assert(q0.contains_key(k));
                            let j = choose|j: int|
                                0 <= j < i && #[trigger] live(nodes@, j) && edge_from(
                                    nodes@,
                                    j,
                                ).spec_key() == k;
                            assert(live(nodes@, j));
                        }
                    }
                    let t1 = map_entries(table);
                    assert forall|q: u64| #[trigger] t1.contains_key(q) implies t1[q] < i + 1 && live(
                        nodes@,
                        t1[q] as int,
                    ) && nodes@[t1[q] as int].position == q by {
                        if q != nodes@[i as int].position {
                            assert(t0.contains_key(q));
                        }
                    }
                }
            }
            i = i + 1;
        }
        proof {
            assert(nodes@.len() <= u32::MAX) by {
                reveal(linked);
            }
        }
        Decimator { queue, position_to_node: Some(table), target_triangle_count }
    }

    /// The live corner that the table names for `position`, if the position
    /// has one.
    pub fn representative(&self, position: u32) -> (r: Option<u32>)
        ensures
            r == (if self.spec_table().contains_key(position as u64) {
                Some(self.spec_table()[position as u64])
            } else {
                None
            }),
    {
        match &self.position_to_node {
            Some(table) => map_get(table, position as u64),
            None => None,
        }
    }

    /// The number of triangles at which the run stops.
    pub fn target_triangle_count(&self) -> (r: u32)
        ensures
            r == self.spec_target(),
    {
        self.target_triangle_count
    }

    /// The priority of `edge` in the queue, if the queue holds the edge.
    pub fn priority(&self, edge: Edge) -> (r: Option<u64>)
        ensures
            r == (if self.spec_queue().contains_key(edge.spec_key()) {
                Some(self.spec_queue()[edge.spec_key()])
            } else {
                None
            }),
    {
        queue_get_priority(&self.queue, edge.key())
    }

    /// Puts `edge` into the queue with `priority`, or gives it that priority
    /// where the queue holds it already. Returns the priority it had.
    pub fn push(&mut self, edge: Edge, priority: u64) -> (r: Option<u64>)
        ensures
            final(self).spec_queue() == old(self).spec_queue().insert(edge.spec_key(), priority),
            final(self).spec_table() == old(self).spec_table(),
            final(self).has_table() == old(self).has_table(),
            final(self).spec_target() == old(self).spec_target(),
            r == (if old(self).spec_queue().contains_key(edge.spec_key()) {
                Some(old(self).spec_queue()[edge.spec_key()])
            } else {
                None
            }),
    {
        queue_push(&mut self.queue, edge.key(), priority)
    }

    /// Gives `edge` the priority `priority` where the queue holds the edge,
    /// and returns the priority it had. Where the queue does not hold the
    /// edge, nothing changes and `None` is returned.
    pub fn change_priority(&mut self, edge: Edge, priority: u64) -> (r: Option<u64>)
        ensures
            final(self).spec_queue() == (if old(self).spec_queue().contains_key(edge.spec_key()) {
                old(self).spec_queue().insert(edge.spec_key(), priority)
            } else {
                old(self).spec_queue()
            }),
            final(self).spec_table() == old(self).spec_table(),
            final(self).has_table() == old(self).has_table(),
            final(self).spec_target() == old(self).spec_target(),
            r == (if old(self).spec_queue().contains_key(edge.spec_key()) {
                Some(old(self).spec_queue()[edge.spec_key()])
            } else {
                None
            }),
    {
        queue_change_priority(&mut self.queue, edge.key(), priority)
    }

    /// What is done with the entry `popped` that has been taken from the
    /// queue.
    ///
    /// Without an entry the run is exhausted. An edge of which one end has
    /// no corner in the table, or whose ends are the same position, is
    /// stale and is dropped. Any other edge is collapsed, its second end
    /// into its first, between the corners that the table names.
    pub fn settle<V>(&mut self, mesh: &mut ConnectedMesh<V>, popped: Option<(u64, u64)>) -> (step:
        Step)
        requires
            old(mesh).wf(),
            old(self).fits(old(mesh)),
        ensures
            final(mesh).wf(),
            final(self).fits(final(mesh)),
            final(self).spec_queue() == old(self).spec_queue(),
            final(self).spec_target() == old(self).spec_target(),
            final(mesh).spec_positions() == old(mesh).spec_positions(),
            final(mesh).spec_normals() == old(mesh).spec_normals(),
            final(mesh).spec_face_count() <= old(mesh).spec_face_count(),
            popped is None ==> step == Step::Exhausted,
            popped matches Some(top) ==> ({
                let edge = edge_of_key(top.0);
                let table = old(self).spec_table();
                let usable = edge.pos_a != edge.pos_b && table.contains_key(edge.pos_a as u64)
                    && table.contains_key(edge.pos_b as u64);
                &&& !usable ==> step == Step::Stale(edge)
                &&& usable ==> ({
                    let merged = match step {
                        Step::Collapsed { edge: e, node } => Some(node),
                        _ => None,
                    };
                    &&& step == (match merged {
                        Some(node) => Step::Collapsed { edge, node },
                        None => Step::Degenerate(edge),
                    })
                    &&& collapse_of(
                        old(mesh).spec_nodes(),
                        old(mesh).spec_rings(),
                        final(mesh).spec_nodes(),
                        final(mesh).spec_rings(),
                        table[edge.pos_a as u64],
                        table[edge.pos_b as u64],
                        merged,
                    )
                    &&& brought_up(
                        old(mesh).spec_rings(),
                        final(mesh).spec_nodes(),
                        Some(table),
                        Some(final(self).spec_table()),
                        edge.pos_a,
                        edge.pos_b,
                        merged,
                    )
                })
            }),
            step is Exhausted || step is Stale ==> *final(mesh) == *old(mesh) && final(self).spec_table() == old(self).spec_table(),
    {
        match popped {
            None => Step::Exhausted,
            Some((key, _)) => {
                let edge = Edge::from_key(key);
                if edge.pos_a == edge.pos_b {
                    return Step::Stale(edge);
                }
                let a = self.representative(edge.pos_a);
                let b = self.representative(edge.pos_b);
                match (a, b) {
                    (Some(node_a), Some(node_b)) => {
                        let merged = mesh.collapse_edge_to_a(
                            node_a,
                            node_b,
                            &mut self.position_to_node,
                        );
                        match merged {
                            Some(node) => Step::Collapsed { edge, node },
                            None => Step::Degenerate(edge),
                        }
                    },
                    _ => Step::Stale(edge),
                }
            },
        }
    }

    /// One step of the run.
    ///
    /// Where the mesh has no more triangles than the run is to stop at,
    /// nothing is done. Otherwise an edge with the greatest priority is
    /// taken from the queue and settled: see [`Decimator::settle`].
    pub fn step<V>(&mut self, mesh: &mut ConnectedMesh<V>) -> (step: Step)
        requires
            old(mesh).wf(),
            old(self).fits(old(mesh)),
        ensures
            final(mesh).wf(),
            final(self).fits(final(mesh)),
            final(self).spec_target() == old(self).spec_target(),
            final(mesh).spec_positions() == old(mesh).spec_positions(),
            final(mesh).spec_normals() == old(mesh).spec_normals(),
            final(mesh).spec_face_count() <= old(mesh).spec_face_count(),
            step is Done <==> old(mesh).spec_face_count() <= old(self).spec_target(),
            step is Done ==> *final(mesh) == *old(mesh) && final(self).spec_queue() == old(self).spec_queue() && final(self).spec_table() == old(self).spec_table(),
            !(step is Done) ==> (step is Exhausted <==> old(self).spec_queue().dom() =~= Set::<
                u64,
            >::empty()),
            step is Exhausted ==> final(self).spec_queue() == old(self).spec_queue(),
            step is Exhausted || step is Stale ==> *final(mesh) == *old(mesh) && final(self).spec_table() == old(self).spec_table(),
            match step {
                Step::Stale(edge) | Step::Degenerate(edge) | Step::Collapsed { edge, node: _ } => {
                    &&& edge.pos_a as u64 * 0x1_0000_0000 + edge.pos_b as u64 <= u64::MAX
                    &&& is_top(
                        old(self).spec_queue(),
                        (edge.pos_a as u64 * 0x1_0000_0000 + edge.pos_b as u64) as u64,
                        old(self).spec_queue()[(edge.pos_a as u64 * 0x1_0000_0000
                            + edge.pos_b as u64) as u64],
                    )
                    &&& final(self).spec_queue() == old(self).spec_queue().remove(
                        (edge.pos_a as u64 * 0x1_0000_0000 + edge.pos_b as u64) as u64,
                    )
                },
                _ => true,
            },
            match step {
                Step::Stale(edge) => edge.pos_a == edge.pos_b || !old(self).spec_table().contains_key(edge.pos_a as u64) || !old(self).spec_table().contains_key(edge.pos_b as u64),
                Step::Degenerate(edge) => collapse_of(
                    old(mesh).spec_nodes(),
                    old(mesh).spec_rings(),
                    final(mesh).spec_nodes(),
                    final(mesh).spec_rings(),
                    old(self).spec_table()[edge.pos_a as u64],
                    old(self).spec_table()[edge.pos_b as u64],
                    None,
                ) && brought_up(
                    old(mesh).spec_rings(),
                    final(mesh).spec_nodes(),
                    Some(old(self).spec_table()),
                    Some(final(self).spec_table()),
                    edge.pos_a,
                    edge.pos_b,
                    None,
                ),
                Step::Collapsed { edge, node } => collapse_of(
                    old(mesh).spec_nodes(),
                    old(mesh).spec_rings(),
                    final(mesh).spec_nodes(),
                    final(mesh).spec_rings(),
                    old(self).spec_table()[edge.pos_a as u64],
                    old(self).spec_table()[edge.pos_b as u64],
                    Some(node),
                ) && brought_up(
                    old(mesh).spec_rings(),
                    final(mesh).spec_nodes(),
                    Some(old(self).spec_table()),
                    Some(final(self).spec_table()),
                    edge.pos_a,
                    edge.pos_b,
                    Some(node),
                ),
                _ => true,
            },
    {
        if mesh.face_count() <= self.target_triangle_count {
            return Step::Done;
        }
        let popped = queue_pop(&mut self.queue);
        proof {
            if let Some(top) = popped {
                lemma_key_parts(top.0);
            }
        }
        self.settle(mesh, popped)
    }
}

/// A key is made of the two positions of the edge it stands for.
pub proof fn lemma_key_parts(key: u64)
    ensures
        edge_of_key(key).pos_a as u64 * 0x1_0000_0000 + edge_of_key(key).pos_b as u64 == key,
        key / 0x1_0000_0000 <= u32::MAX,
{
    let k = key as int;
    assert(k / 0x1_0000_0000 <= 0xffff_ffff && (k / 0x1_0000_0000) * 0x1_0000_0000 + k
        % 0x1_0000_0000 == k) by (nonlinear_arith)
        requires
            0 <= k <= 0xffff_ffff_ffff_ffff,
    ;
}

} // verus!
