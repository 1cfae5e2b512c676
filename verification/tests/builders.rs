use nanomesh::base::U32Vec3;
use nanomesh::mesh::{ConnectedMesh, Node, SharedMesh};

type Point = [f64; 3];

/// The unit square, split along the diagonal from vertex 0 to vertex 2.
fn square() -> SharedMesh<Point> {
    SharedMesh {
        groups: Vec::new(),
        triangles: vec![U32Vec3::new(0, 1, 2), U32Vec3::new(0, 2, 3)],
        positions: vec![[0., 0., 0.], [1., 0., 0.], [1., 1., 0.], [0., 1., 0.]],
        normals: None,
        colors: None,
    }
}

fn relatives(nodes: &[Node], start: u32) -> usize {
    let mut count = 0;
    let mut at = start;
    loop {
        count += 1;
        at = nodes[at as usize].relative;
        if at == start {
            return count;
        }
    }
}

fn siblings(nodes: &[Node], start: u32) -> usize {
    let mut count = 0;
    let mut at = start;
    loop {
        count += 1;
        at = nodes[at as usize].sibling;
        if at == start {
            return count;
        }
    }
}

#[test]
fn builders_shared_mesh_to_connected_mesh() {
    let shared_mesh = square();
    assert!(shared_mesh.is_valid());

    let connected_mesh = ConnectedMesh::from(&shared_mesh);

    assert_eq!(connected_mesh.face_count(), 2);
    assert_eq!(connected_mesh.positions().len(), 4);
    assert_eq!(connected_mesh.nodes().len(), 6);

    // Check relatives
    for i in 0..6 {
        assert_eq!(relatives(connected_mesh.nodes(), i), 3);
    }

    // Check siblings (connectivity)
    for i in [[0, 2], [1, 1], [2, 2], [3, 2], [4, 2], [5, 1]] {
        assert_eq!(siblings(connected_mesh.nodes(), i[0]), i[1] as usize);
    }
}

#[test]
fn connected_mesh_has_one_node_per_corner() {
    let mesh = ConnectedMesh::from(&square());
    let nodes = mesh.nodes();
    let corners = [0, 1, 2, 0, 2, 3];
    let relative = [1, 2, 0, 4, 5, 3];
    for i in 0..6 {
        assert_eq!(nodes[i].position, corners[i]);
        assert_eq!(nodes[i].normal, corners[i]);
        assert_eq!(nodes[i].relative, relative[i]);
        assert!(!nodes[i].is_removed);
    }
}

#[test]
fn rings_run_from_the_newest_corner_to_the_oldest() {
    let mesh = ConnectedMesh::from(&square());
    let nodes = mesh.nodes();
    // position 0 is at the corners 0 and 3, position 2 at the corners 2 and 4
    assert_eq!(nodes[3].sibling, 0);
    assert_eq!(nodes[0].sibling, 3);
    assert_eq!(nodes[4].sibling, 2);
    assert_eq!(nodes[2].sibling, 4);
    assert_eq!(nodes[1].sibling, 1);
    assert_eq!(nodes[5].sibling, 5);
    assert_eq!(mesh.siblings(3), vec![3, 0]);
    assert_eq!(mesh.siblings(0), vec![0, 3]);
}

#[test]
fn ring_of_three_corners() {
    let fan = SharedMesh {
        groups: Vec::new(),
        triangles: vec![U32Vec3::new(0, 1, 2), U32Vec3::new(0, 2, 3), U32Vec3::new(0, 3, 4)],
        positions: vec![[0.; 3]; 5],
        normals: None,
        colors: None,
    };
    let mesh = ConnectedMesh::from(&fan);
    // the corners at position 0 are 0, 3 and 6: each is linked to the one before it
    assert_eq!(mesh.nodes()[6].sibling, 3);
    assert_eq!(mesh.nodes()[3].sibling, 0);
    assert_eq!(mesh.nodes()[0].sibling, 6);
    assert_eq!(mesh.siblings(0), vec![0, 6, 3]);
}

#[test]
fn flat_mesh_of_the_square() {
    let connected_mesh = ConnectedMesh::from(&square());
    let shared_mesh = SharedMesh::from(&connected_mesh);

    assert_eq!(shared_mesh.triangles.len(), 2);
    assert_eq!(shared_mesh.positions.len(), 4);
    assert_eq!(shared_mesh.triangles[0], U32Vec3::new(0, 1, 2));
    assert_eq!(shared_mesh.triangles[1], U32Vec3::new(0, 2, 3));
    assert_eq!(shared_mesh.positions, square().positions);
    assert!(shared_mesh.normals.is_none());
    assert!(shared_mesh.colors.is_none());
    assert!(shared_mesh.groups.is_empty());
}

#[test]
fn as_many_triangles_as_faces() {
    let connected_mesh = ConnectedMesh::from(&square());
    let shared_mesh = SharedMesh::from(&connected_mesh);
    assert_eq!(shared_mesh.triangles.len() as u32, connected_mesh.face_count());
}

#[test]
fn round_trip_renumbers_vertices_in_order_of_use() {
    let flat = SharedMesh {
        groups: Vec::new(),
        triangles: vec![U32Vec3::new(3, 1, 0), U32Vec3::new(1, 2, 0)],
        positions: vec![[0., 0., 0.], [1., 0., 0.], [2., 0., 0.], [3., 0., 0.]],
        normals: Some(vec![[0., 0., 1.], [0., 1., 0.], [1., 0., 0.], [1., 1., 1.]]),
        colors: None,
    };
    assert!(flat.is_valid());
    let back = SharedMesh::from(&ConnectedMesh::from(&flat));
    assert_eq!(back.triangles, vec![U32Vec3::new(0, 1, 2), U32Vec3::new(1, 3, 2)]);
    assert_eq!(back.positions, vec![[3., 0., 0.], [1., 0., 0.], [0., 0., 0.], [2., 0., 0.]]);
    assert_eq!(
        back.normals,
        Some(vec![[1., 1., 1.], [0., 1., 0.], [0., 0., 1.], [1., 0., 0.]])
    );
    assert_eq!(back.positions.len(), flat.positions.len());
}

#[test]
fn unused_vertices_are_dropped() {
    let mut flat = square();
    flat.positions.push([9., 9., 9.]);
    let back = SharedMesh::from(&ConnectedMesh::from(&flat));
    assert_eq!(back.positions.len(), 4);
    assert_eq!(back.triangles.len(), 2);
}

#[test]
fn empty_mesh() {
    let flat: SharedMesh<Point> = SharedMesh {
        groups: Vec::new(),
        triangles: Vec::new(),
        positions: Vec::new(),
        normals: None,
        colors: None,
    };
    assert!(flat.is_valid());
    let mesh = ConnectedMesh::from(&flat);
    assert_eq!(mesh.face_count(), 0);
    assert_eq!(mesh.nodes().len(), 0);
    let back = SharedMesh::from(&mesh);
    assert!(back.triangles.is_empty());
    assert!(back.positions.is_empty());
}

#[test]
fn default_meshes() {
    let flat: SharedMesh<Point> = SharedMesh::default();
    assert!(flat.triangles.is_empty());
    assert!(flat.positions.is_empty());
    assert_eq!(flat.normals, Some(Vec::new()));
    assert_eq!(flat.colors, Some(Vec::new()));
    let mesh: ConnectedMesh<Point> = ConnectedMesh::default();
    assert_eq!(mesh.face_count(), 0);
    assert!(mesh.nodes().is_empty());
    assert!(mesh.positions().is_empty());
    assert!(mesh.normals().is_none());
}

#[test]
fn index_out_of_range_is_not_valid() {
    let mut flat = square();
    flat.triangles[1] = U32Vec3::new(0, 2, 4);
    assert!(!flat.is_valid());
}

#[test]
fn missing_normal_is_not_valid() {
    let mut flat = square();
    flat.normals = Some(vec![[0., 0., 1.]; 3]);
    assert!(!flat.is_valid());
    flat.normals = Some(vec![[0., 0., 1.]; 4]);
    assert!(flat.is_valid());
}

#[test]
fn combine_shifts_the_indices_of_the_second_mesh() {
    let both = SharedMesh::combine(square(), square());
    assert_eq!(both.positions.len(), 8);
    assert_eq!(
        both.triangles,
        vec![
            U32Vec3::new(0, 1, 2),
            U32Vec3::new(0, 2, 3),
            U32Vec3::new(4, 5, 6),
            U32Vec3::new(4, 6, 7)
        ]
    );
    assert_eq!(&both.positions[4..], &square().positions[..]);
}

#[test]
fn triangle_corners() {
    let t = U32Vec3::new(7, 8, 9);
    assert_eq!(t.get(0), 7);
    assert_eq!(t.get(1), 8);
    assert_eq!(t.get(2), 9);
    assert_eq!(U32Vec3::default(), U32Vec3::new(0, 0, 0));
    assert_ne!(t, U32Vec3::new(7, 8, 10));
}

#[test]
fn node_layout() {
    let mut node = Node::from_layout(4, 5, 2);
    assert_eq!(node.position, 4);
    assert_eq!(node.sibling, 5);
    assert_eq!(node.relative, 2);
    assert_eq!(node.normal, 0);
    assert!(!node.is_removed);
    node.mark_removed();
    assert!(node.is_removed);
    assert_eq!(node.position, 4);
    assert_eq!(Node::default(), Node::from_layout(0, 0, 0));
}

#[test]
fn dummy_test() {
    assert_eq!(1, 1);
}
