use nanomesh::base::U32Vec3;
use nanomesh::mesh::{ConnectedMesh, Node, SharedMesh};

type Point = [f64; 3];

fn square_positions() -> Vec<Point> {
    // Build a square
    vec![[0., 0., 0.], [1., 0., 0.], [1., 1., 0.], [0., 1., 0.]]
}

fn square_nodes() -> Vec<Node> {
    let mut nodes = Vec::new();
    nodes.push(Node::from_layout(0, 3, 1));
    nodes.push(Node::from_layout(1, 1, 2)); // sibling is itself
    nodes.push(Node::from_layout(2, 4, 0));
    nodes.push(Node::from_layout(0, 0, 4));
    nodes.push(Node::from_layout(2, 2, 5));
    nodes.push(Node::from_layout(3, 5, 3)); // sibling is itself
    nodes
}

#[test]
fn builders_connected_mesh_to_shared_mesh() {
    let connected_mesh =
        ConnectedMesh::from_parts(square_positions(), None, square_nodes(), 2).unwrap();

    let shared_mesh = SharedMesh::from(&connected_mesh);

    assert_eq!(shared_mesh.triangles.len(), 2);
    assert_eq!(shared_mesh.positions.len(), 4);
    assert_eq!(shared_mesh.triangles[0], U32Vec3::new(0, 1, 2));
    assert_eq!(shared_mesh.triangles[1], U32Vec3::new(0, 2, 3));
}

fn build_test_mesh() -> ConnectedMesh<Point> {
    // A────────────────────────B
    // │ ╲           ...---‾‾‾╱ │
    // │  ╲ ...---‾‾‾        ╱  │
    // │   E────────────────F   │
    // │  ╱‾‾‾---...         ╲  │
    // │ ╱          ‾‾‾---... ╲ │
    // D────────────────────────C

    let mut positions = Vec::new();
    positions.push([0., 1., 0.]); // A (0)
    positions.push([2., 1., 0.]); // B (1)
    positions.push([2., 0., 0.]); // C (2)
    positions.push([0., 0., 0.]); // D (3)
    positions.push([0.25, 0.5, 0.]); // E (4)
    positions.push([1.75, 0.5, 0.]); // F (5)

    let mut nodes = Vec::new();
    // Face AED
    nodes.push(Node::from_layout(0, 3, 1)); // (0)
    nodes.push(Node::from_layout(4, 5, 2)); // (1)
    nodes.push(Node::from_layout(3, 9, 0)); // (2)
    // Face ABE
    nodes.push(Node::from_layout(0, 0, 4)); // (3)
    nodes.push(Node::from_layout(1, 15, 5)); // (4)
    nodes.push(Node::from_layout(4, 6, 3)); // (5)
    // Face EBF
    nodes.push(Node::from_layout(4, 12, 7)); // (6)
    nodes.push(Node::from_layout(1, 4, 8)); // (7)
    nodes.push(Node::from_layout(5, 17, 6)); // (8)
    // Face DEC
    nodes.push(Node::from_layout(3, 2, 10)); // (9)
    nodes.push(Node::from_layout(4, 1, 11)); // (10)
    nodes.push(Node::from_layout(2, 14, 9)); // (11)
    // Face EFC
    nodes.push(Node::from_layout(4, 10, 13)); // (12)
    nodes.push(Node::from_layout(5, 8, 14)); // (13)
    nodes.push(Node::from_layout(2, 16, 12)); // (14)
    // Face BCF
    nodes.push(Node::from_layout(1, 7, 16)); // (15)
    nodes.push(Node::from_layout(2, 11, 17)); // (16)
    nodes.push(Node::from_layout(5, 13, 15)); // (17)

    let connected_mesh = ConnectedMesh::from_parts(positions, None, nodes, 6).unwrap();

    // Verify connectivity
    for i in 0..connected_mesh.nodes().len() {
        assert_eq!(connected_mesh.check_siblings(i as u32), true);
        assert_eq!(connected_mesh.check_relatives(i as u32), true);
    }

    assert_eq!(connected_mesh.face_count(), 6);

    return connected_mesh;
}

#[test]
#[allow(non_snake_case)]
fn collapse_EF_to_E() {
    let mut connected_mesh = build_test_mesh();

    connected_mesh.collapse_edge_to_a(1 /*a node of E*/, 8 /*a node of F*/, &mut None);

    let mut nodes_removed = 0;

    for i in 0..connected_mesh.nodes().len() {
        if connected_mesh.nodes()[i].is_removed {
            nodes_removed += 1;
        } else {
            // Verify that connectivity is valid
            assert_eq!(connected_mesh.check_siblings(i as u32), true);
            assert_eq!(connected_mesh.check_relatives(i as u32), true);
            // Verify that position of a valid node is never F (5), since it is supposed to be removed
            assert_eq!(connected_mesh.nodes()[i].position == 5, false);
        }
    }

    // There should be 2 faces removed
    assert_eq!(connected_mesh.face_count(), 4);
    // There should be 2 faces removed, which implies 6 nodes
    assert_eq!(nodes_removed, 6);
}

#[test]
#[allow(non_snake_case)]
fn collapse_EF_to_F() {
    let mut connected_mesh = build_test_mesh();

    connected_mesh.collapse_edge_to_a(8 /*a node of F*/, 1 /*a node of E*/, &mut None);

    let mut nodes_removed = 0;

    for i in 0..connected_mesh.nodes().len() {
        if connected_mesh.nodes()[i].is_removed {
            nodes_removed += 1;
        } else {
            // Verify that connectivity is valid
            assert_eq!(connected_mesh.check_siblings(i as u32), true);
            assert_eq!(connected_mesh.check_relatives(i as u32), true);
            // Verify that position of a valid node is never E (4), since it is supposed to be removed
            assert_eq!(connected_mesh.nodes()[i].position == 4, false);
        }
    }

    // There should be 2 faces removed
    assert_eq!(connected_mesh.face_count(), 4);
    // There should be 2 faces removed, which implies 6 nodes
    assert_eq!(nodes_removed, 6);
}

#[test]
fn parts_of_a_built_mesh_make_the_mesh_again() {
    let built = build_test_mesh();
    let again = ConnectedMesh::from_parts(
        built.positions().clone(),
        None,
        built.nodes().clone(),
        built.face_count(),
    )
    .unwrap();
    assert_eq!(again.nodes(), built.nodes());
    assert_eq!(again.face_count(), 6);
    assert_eq!(again.siblings(1), built.siblings(1));
}

#[test]
fn parts_after_a_collapse_make_a_mesh() {
    let mut mesh = build_test_mesh();
    mesh.collapse_edge_to_a(1, 8, &mut None);
    let again =
        ConnectedMesh::from_parts(mesh.positions().clone(), None, mesh.nodes().clone(), 4);
    assert!(again.is_some());
}

#[test]
fn wrong_face_count_makes_no_mesh() {
    assert!(ConnectedMesh::from_parts(square_positions(), None, square_nodes(), 3).is_none());
    assert!(ConnectedMesh::from_parts(square_positions(), None, square_nodes(), 2).is_some());
}

#[test]
fn link_out_of_range_makes_no_mesh() {
    let mut nodes = square_nodes();
    nodes[5].relative = 6;
    assert!(ConnectedMesh::from_parts(square_positions(), None, nodes, 2).is_none());
    let mut nodes = square_nodes();
    nodes[5].sibling = 9;
    assert!(ConnectedMesh::from_parts(square_positions(), None, nodes, 2).is_none());
    let mut nodes = square_nodes();
    nodes[5].position = 4;
    assert!(ConnectedMesh::from_parts(square_positions(), None, nodes, 2).is_none());
}

#[test]
fn normal_out_of_range_makes_no_mesh() {
    let normals = Some(vec![[0., 0., 1.]; 1]);
    assert!(ConnectedMesh::from_parts(square_positions(), normals.clone(), square_nodes(), 2)
        .is_some());
    let mut nodes = square_nodes();
    nodes[2].normal = 1;
    assert!(ConnectedMesh::from_parts(square_positions(), normals, nodes.clone(), 2).is_none());
    // without normals the slot is not looked at
    assert!(ConnectedMesh::from_parts(square_positions(), None, nodes, 2).is_some());
}

#[test]
fn triangle_that_does_not_close_makes_no_mesh() {
    let mut nodes = square_nodes();
    nodes[2].relative = 1;
    assert!(ConnectedMesh::from_parts(square_positions(), None, nodes, 2).is_none());
}

#[test]
fn corners_of_one_vertex_in_two_rings_make_no_mesh() {
    let mut nodes = square_nodes();
    // the corners 0 and 3 sit at position 0, each linked to itself
    nodes[0].sibling = 0;
    nodes[3].sibling = 3;
    assert!(ConnectedMesh::from_parts(square_positions(), None, nodes, 2).is_none());
}

#[test]
fn sibling_at_another_position_makes_no_mesh() {
    let mut nodes = square_nodes();
    nodes[1].sibling = 5;
    nodes[5].sibling = 1;
    assert!(ConnectedMesh::from_parts(square_positions(), None, nodes, 2).is_none());
}

#[test]
fn ring_that_does_not_close_makes_no_mesh() {
    let fan = SharedMesh {
        groups: Vec::new(),
        triangles: vec![U32Vec3::new(0, 1, 2), U32Vec3::new(0, 2, 3), U32Vec3::new(0, 3, 4)],
        positions: vec![[0.; 3]; 5],
        normals: None,
        colors: None,
    };
    let mesh = ConnectedMesh::from(&fan);
    let mut nodes = mesh.nodes().clone();
    // position 0 has the corners 0, 3 and 6, linked 6 -> 3 -> 0 -> 6
    assert_eq!(nodes[0].sibling, 6);
    nodes[0].sibling = 3;
    assert!(ConnectedMesh::from_parts(vec![[0.; 3]; 5], None, nodes, 3).is_none());
}

#[test]
fn removed_nodes_are_not_looked_at() {
    let mut nodes = square_nodes();
    // the second triangle is gone; the first has its corners alone
    for i in 3..6 {
        nodes[i].mark_removed();
        nodes[i].relative = 99;
        nodes[i].sibling = 99;
    }
    nodes[0].sibling = 0;
    nodes[2].sibling = 2;
    let mesh = ConnectedMesh::from_parts(square_positions(), None, nodes, 1).unwrap();
    assert_eq!(mesh.face_count(), 1);
    assert_eq!(SharedMesh::from(&mesh).triangles, vec![U32Vec3::new(0, 1, 2)]);
}

#[test]
fn removed_node_in_a_ring_makes_no_mesh() {
    let mut nodes = square_nodes();
    for i in 3..6 {
        nodes[i].mark_removed();
    }
    // corner 0 is still linked to the removed corner 3
    assert!(ConnectedMesh::from_parts(square_positions(), None, nodes, 1).is_none());
}
