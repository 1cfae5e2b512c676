use nanomesh::base::U32Vec3;
use nanomesh::mesh::{ConnectedMesh, SharedMesh};

type Point = [f64; 3];

fn flat(positions: Vec<Point>, triangles: Vec<[u32; 3]>) -> SharedMesh<Point> {
    SharedMesh {
        groups: Vec::new(),
        triangles: triangles.iter().map(|t| U32Vec3::new(t[0], t[1], t[2])).collect(),
        positions,
        normals: None,
        colors: None,
    }
}

fn square() -> ConnectedMesh<Point> {
    ConnectedMesh::from(&flat(
        vec![[0., 0., 0.], [1., 0., 0.], [1., 1., 0.], [0., 1., 0.]],
        vec![[0, 1, 2], [0, 2, 3]],
    ))
}

// A────────────────────────B
// │ ╲           ...---‾‾‾╱ │
// │  ╲ ...---‾‾‾        ╱  │
// │   E────────────────F   │
// │  ╱‾‾‾---...         ╲  │
// │ ╱          ‾‾‾---... ╲ │
// D────────────────────────C
fn six_faces() -> ConnectedMesh<Point> {
    ConnectedMesh::from(&flat(
        vec![
            [0., 1., 0.],   // A (0)
            [2., 1., 0.],   // B (1)
            [2., 0., 0.],   // C (2)
            [0., 0., 0.],   // D (3)
            [0.25, 0.5, 0.], // E (4)
            [1.75, 0.5, 0.], // F (5)
        ],
        vec![[0, 4, 3], [0, 1, 4], [4, 1, 5], [3, 4, 2], [4, 5, 2], [1, 2, 5]],
    ))
}

fn removed(mesh: &ConnectedMesh<Point>) -> usize {
    mesh.nodes().iter().filter(|n| n.is_removed).count()
}

fn check_connectivity(mesh: &ConnectedMesh<Point>) {
    for i in 0..mesh.nodes().len() {
        if !mesh.nodes()[i].is_removed {
            assert!(mesh.check_siblings(i as u32));
            assert!(mesh.check_relatives(i as u32));
        }
    }
}

#[test]
fn collapse_around_two_inner_vertices_to_the_first() {
    let mut mesh = six_faces();
    check_connectivity(&mesh);
    assert_eq!(mesh.face_count(), 6);

    let merged = mesh.collapse_edge_to_a(1 /*a node of E*/, 8 /*a node of F*/, &mut None);

    check_connectivity(&mesh);
    for node in mesh.nodes() {
        if !node.is_removed {
            // F (5) is gone
            assert_ne!(node.position, 5);
        }
    }
    // There should be 2 faces removed, which implies 6 nodes
    assert_eq!(mesh.face_count(), 4);
    assert_eq!(removed(&mesh), 6);
    let merged = merged.unwrap();
    assert_eq!(mesh.nodes()[merged as usize].position, 4);
    // E had four corners and lost two; F had four corners and lost two
    assert_eq!(mesh.siblings(merged).len(), 4);
}

#[test]
fn collapse_around_two_inner_vertices_to_the_second() {
    let mut mesh = six_faces();

    mesh.collapse_edge_to_a(8 /*a node of F*/, 1 /*a node of E*/, &mut None);

    check_connectivity(&mesh);
    for node in mesh.nodes() {
        if !node.is_removed {
            // E (4) is gone
            assert_ne!(node.position, 4);
        }
    }
    assert_eq!(mesh.face_count(), 4);
    assert_eq!(removed(&mesh), 6);
}

#[test]
fn collapse_removes_exactly_the_faces_on_the_edge() {
    let mut mesh = six_faces();
    mesh.collapse_edge_to_a(1, 8, &mut None);
    // the faces EBF (nodes 6..9) and EFC (nodes 12..15) are on the edge
    let gone: Vec<usize> =
        (0..18).filter(|i| mesh.nodes()[*i].is_removed).collect();
    assert_eq!(gone, vec![6, 7, 8, 12, 13, 14]);
    // the links of the triangles are untouched
    assert_eq!(mesh.nodes()[15].relative, 16);
    assert_eq!(mesh.nodes()[16].relative, 17);
    assert_eq!(mesh.nodes()[17].relative, 15);
    // the corner of BCF that sat at F now sits at E
    assert_eq!(mesh.nodes()[17].position, 4);
    assert_eq!(mesh.nodes()[15].position, 1);
}

#[test]
fn collapse_takes_third_corners_out_of_their_rings() {
    let mut mesh = six_faces();
    // B has the corners 4, 7 and 15; corner 7 is in the face EBF
    assert_eq!(mesh.siblings(4).len(), 3);
    mesh.collapse_edge_to_a(1, 8, &mut None);
    let ring = mesh.siblings(4);
    assert_eq!(ring.len(), 2);
    assert!(ring.contains(&4) && ring.contains(&15));
    // C has the corners 11, 14 and 16; corner 14 is in the face EFC
    let ring = mesh.siblings(11);
    assert_eq!(ring.len(), 2);
    assert!(ring.contains(&11) && ring.contains(&16));
}

#[test]
fn flat_mesh_after_collapse() {
    let mut mesh = six_faces();
    mesh.collapse_edge_to_a(1, 8, &mut None);
    let flat = SharedMesh::from(&mesh);
    assert_eq!(flat.triangles.len(), 4);
    assert_eq!(flat.triangles.len() as u32, mesh.face_count());
    // A, B, C, D and E are left; the corner that came from F keeps its
    // normal slot and so stays a vertex of its own, at the position of E
    assert_eq!(flat.positions.len(), 6);
    assert_eq!(
        flat.triangles,
        vec![
            U32Vec3::new(0, 1, 2),
            U32Vec3::new(0, 3, 1),
            U32Vec3::new(2, 1, 4),
            U32Vec3::new(3, 4, 5)
        ]
    );
    assert_eq!(
        flat.positions,
        vec![
            [0., 1., 0.],
            [0.25, 0.5, 0.],
            [0., 0., 0.],
            [2., 1., 0.],
            [2., 0., 0.],
            [0.25, 0.5, 0.]
        ]
    );
}

#[test]
fn collapse_of_the_diagonal_of_the_square_removes_both_triangles() {
    let mut mesh = square();
    // node 0 sits at position 0, node 2 at position 2: both triangles are
    // on the edge between them
    let merged = mesh.collapse_edge_to_a(0, 2, &mut None);
    assert_eq!(merged, None);
    assert_eq!(mesh.face_count(), 0);
    assert_eq!(removed(&mesh), 6);
    assert!(SharedMesh::from(&mesh).triangles.is_empty());
}

#[test]
fn collapse_of_a_side_of_the_square_leaves_one_triangle() {
    let mut mesh = square();
    // node 0 sits at position 0, node 1 at position 1
    let merged = mesh.collapse_edge_to_a(0, 1, &mut None);
    assert_eq!(mesh.face_count(), 1);
    assert_eq!(removed(&mesh), 3);
    assert_eq!(merged, Some(3));
    check_connectivity(&mesh);
    let flat = SharedMesh::from(&mesh);
    assert_eq!(flat.triangles, vec![U32Vec3::new(0, 1, 2)]);
    assert_eq!(flat.positions, vec![[0., 0., 0.], [1., 1., 0.], [0., 1., 0.]]);
}

#[test]
fn collapse_of_two_vertices_without_a_common_triangle_only_merges() {
    let mut mesh = square();
    // positions 1 and 3 are not joined by an edge
    let merged = mesh.collapse_edge_to_a(1, 5, &mut None);
    assert_eq!(mesh.face_count(), 2);
    assert_eq!(removed(&mesh), 0);
    assert_eq!(merged, Some(1));
    assert_eq!(mesh.siblings(1), vec![1, 5]);
    assert_eq!(mesh.nodes()[5].position, 1);
}

#[test]
fn set_position_writes_the_slot_of_the_vertex() {
    let mut mesh = square();
    mesh.set_position(4, [5., 5., 5.]);
    assert_eq!(mesh.positions()[2], [5., 5., 5.]);
    assert_eq!(mesh.positions()[0], [0., 0., 0.]);
    assert_eq!(mesh.positions().len(), 4);
}

#[test]
fn reconnect_sibling_of_a_ring_without_removed_nodes_keeps_the_ring() {
    let mut mesh = six_faces();
    let before = mesh.siblings(1);
    assert_eq!(mesh.reconnect_sibling(1), Some(1));
    assert_eq!(mesh.siblings(1), before);
    assert_eq!(mesh.face_count(), 6);
}

#[test]
fn reconnect_siblings_merges_two_rings() {
    let mut mesh = square();
    // the rings of position 1 (node 1) and of position 3 (node 5)
    assert_eq!(mesh.reconnect_siblings(1, 5, 3), Some(1));
    assert_eq!(mesh.siblings(1), vec![1, 5]);
    assert_eq!(mesh.nodes()[1].position, 3);
    assert_eq!(mesh.nodes()[5].position, 3);
}

#[test]
fn corners_next_to_a_vertex() {
    let mesh = six_faces();
    // E (4) has the corners 1, 5, 6, 10 and 12
    let next = mesh.adjacent_corners(1);
    let mut positions: Vec<u32> = next.iter().map(|n| mesh.nodes()[*n as usize].position).collect();
    assert_eq!(positions.len(), 5);
    positions.sort();
    assert_eq!(positions, vec![0, 1, 2, 3, 5]);
    // the walk starts at node 1, in the face AED: D is met first, then A
    assert_eq!(next[0], 2);
    assert_eq!(next[1], 0);
}

#[test]
fn edge_weights_of_the_square() {
    let mesh = square();
    // the diagonal is on two triangles
    assert_eq!(mesh.get_edge_topo(0, 2), 0);
    // a side is on one triangle
    assert_eq!(mesh.get_edge_topo(0, 1), 100);
    // positions 1 and 3 are not joined at all
    assert_eq!(mesh.get_edge_topo(1, 5), 100);
}

#[test]
fn edge_weights_with_normals() {
    let mut shared = flat(
        vec![[0., 0., 0.], [1., 0., 0.], [1., 1., 0.], [0., 1., 0.]],
        vec![[0, 1, 2], [0, 2, 3]],
    );
    shared.normals = Some(vec![[0., 0., 1.]; 4]);
    let mesh = ConnectedMesh::from(&shared);
    // on the diagonal both ends have the same normal in both triangles
    assert_eq!(mesh.get_edge_topo(0, 2), 20);
    assert_eq!(mesh.get_edge_topo(2, 0), 20);
    assert_eq!(mesh.get_edge_topo(0, 1), 100);
}
