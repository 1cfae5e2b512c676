use nanomesh::base::U32Vec3;
use nanomesh::mesh::decimate::{Decimator, Edge, Step};
use nanomesh::mesh::{ConnectedMesh, SharedMesh};

type Point = [f64; 3];

fn flat(positions: usize, triangles: Vec<[u32; 3]>) -> SharedMesh<Point> {
    SharedMesh {
        groups: Vec::new(),
        triangles: triangles.iter().map(|t| U32Vec3::new(t[0], t[1], t[2])).collect(),
        positions: (0..positions).map(|i| [i as f64, 0., 0.]).collect(),
        normals: None,
        colors: None,
    }
}

fn square() -> ConnectedMesh<Point> {
    ConnectedMesh::from(&flat(4, vec![[0, 1, 2], [0, 2, 3]]))
}

fn six_faces() -> ConnectedMesh<Point> {
    ConnectedMesh::from(&flat(
        6,
        vec![[0, 4, 3], [0, 1, 4], [4, 1, 5], [3, 4, 2], [4, 5, 2], [1, 2, 5]],
    ))
}

fn removed(mesh: &ConnectedMesh<Point>) -> usize {
    mesh.nodes().iter().filter(|n| n.is_removed).count()
}

#[test]
fn a_run_starts_with_every_edge_queued() {
    let mesh = square();
    let run = Decimator::new(&mesh, 1);
    assert_eq!(run.target_triangle_count(), 1);
    for edge in [[0, 1], [1, 2], [2, 0], [0, 2], [2, 3], [3, 0]] {
        assert_eq!(run.priority(Edge::new(edge[0], edge[1])), Some(0));
        assert_eq!(run.priority(Edge::new(edge[1], edge[0])), Some(0));
    }
    assert_eq!(run.priority(Edge::new(1, 3)), None);
}

#[test]
fn a_run_starts_with_the_last_corner_of_each_position() {
    let mesh = square();
    let run = Decimator::new(&mesh, 1);
    assert_eq!(run.representative(0), Some(3));
    assert_eq!(run.representative(1), Some(1));
    assert_eq!(run.representative(2), Some(4));
    assert_eq!(run.representative(3), Some(5));
    assert_eq!(run.representative(4), None);
}

#[test]
fn ratio_of_one_changes_nothing() {
    let mut mesh = six_faces();
    let target_triangle_ratio: f32 = 1.0;
    let target = (target_triangle_ratio * mesh.face_count() as f32).round() as u32;
    assert_eq!(target, 6);
    let mut run = Decimator::new(&mesh, target);
    assert_eq!(run.step(&mut mesh), Step::Done);
    assert_eq!(mesh.face_count(), 6);
    assert_eq!(removed(&mesh), 0);
    // the queue is as it was
    assert_eq!(run.priority(Edge::new(4, 5)), Some(0));
}

#[test]
fn target_above_the_face_count_changes_nothing() {
    let mut mesh = square();
    let mut run = Decimator::new(&mesh, 10);
    assert_eq!(run.step(&mut mesh), Step::Done);
    assert_eq!(mesh.face_count(), 2);
    assert_eq!(removed(&mesh), 0);
}

#[test]
fn the_edge_with_the_greatest_priority_is_collapsed() {
    let mut mesh = six_faces();
    let mut run = Decimator::new(&mesh, 4);
    assert_eq!(run.push(Edge::new(5, 4), 7), Some(0));
    assert_eq!(run.priority(Edge::new(4, 5)), Some(7));
    let step = run.step(&mut mesh);
    match step {
        Step::Collapsed { edge, node } => {
            assert_eq!(edge, Edge::new(4, 5));
            assert_eq!(edge.pos_a, 4);
            assert_eq!(mesh.nodes()[node as usize].position, 4);
            assert!(!mesh.nodes()[node as usize].is_removed);
        }
        other => panic!("{:?}", other),
    }
    assert_eq!(mesh.face_count(), 4);
    assert_eq!(removed(&mesh), 6);
    // the edge has left the queue
    assert_eq!(run.priority(Edge::new(4, 5)), None);
    // the table follows: nothing is left at position 5
    assert_eq!(run.representative(5), None);
    let at_e = run.representative(4).unwrap();
    assert_eq!(mesh.nodes()[at_e as usize].position, 4);
    assert!(!mesh.nodes()[at_e as usize].is_removed);
    for position in 0..4 {
        let node = run.representative(position).unwrap();
        assert_eq!(mesh.nodes()[node as usize].position, position);
        assert!(!mesh.nodes()[node as usize].is_removed);
    }
    assert_eq!(run.step(&mut mesh), Step::Done);
}

#[test]
fn edges_of_a_vertex_that_is_gone_are_stale() {
    let mut mesh = six_faces();
    let mut run = Decimator::new(&mesh, 0);
    run.push(Edge::new(4, 5), 9);
    run.push(Edge::new(5, 1), 8);
    assert!(matches!(run.step(&mut mesh), Step::Collapsed { .. }));
    let faces = mesh.face_count();
    // position 5 has been merged into position 4
    assert_eq!(run.step(&mut mesh), Step::Stale(Edge::new(1, 5)));
    assert_eq!(mesh.face_count(), faces);
    assert_eq!(run.priority(Edge::new(1, 5)), None);
}

#[test]
fn an_edge_from_a_position_to_itself_is_stale() {
    let mut mesh = square();
    let mut run = Decimator::new(&mesh, 0);
    run.push(Edge::new(2, 2), 5);
    assert_eq!(run.step(&mut mesh), Step::Stale(Edge::new(2, 2)));
    assert_eq!(mesh.face_count(), 2);
}

#[test]
fn a_collapse_that_leaves_no_corner_is_degenerate() {
    let mut mesh = square();
    let mut run = Decimator::new(&mesh, 0);
    run.push(Edge::new(0, 2), 5);
    assert_eq!(run.step(&mut mesh), Step::Degenerate(Edge::new(0, 2)));
    assert_eq!(mesh.face_count(), 0);
    assert_eq!(run.representative(0), None);
    assert_eq!(run.representative(2), None);
    assert_eq!(run.representative(1), None);
    assert_eq!(run.representative(3), None);
    assert_eq!(run.step(&mut mesh), Step::Done);
}

#[test]
fn an_empty_queue_ends_the_run() {
    let mut mesh = square();
    let mut run = Decimator::new(&mesh, 0);
    let mut steps = 0;
    loop {
        let before = mesh.face_count();
        let step = run.step(&mut mesh);
        assert!(mesh.face_count() <= before);
        if step == Step::Done || step == Step::Exhausted {
            break;
        }
        steps += 1;
        assert!(steps <= 6);
    }
    assert_eq!(mesh.face_count(), 0);
}

#[test]
fn a_run_to_exhaustion() {
    // two triangles that share no vertex: no collapse removes a triangle
    let mut mesh = ConnectedMesh::from(&flat(6, vec![[0, 1, 2], [3, 4, 5]]));
    let mut run = Decimator::new(&mesh, 0);
    // every edge is on one triangle only, and collapsing it removes that triangle
    let mut last = Step::Done;
    for _ in 0..20 {
        last = run.step(&mut mesh);
        if last == Step::Done || last == Step::Exhausted {
            break;
        }
    }
    assert_eq!(last, Step::Done);
    assert_eq!(mesh.face_count(), 0);

    let mut mesh = square();
    let mut run = Decimator::new(&mesh, 1);
    // lower every priority but keep the queue: then empty it of all but stale edges
    assert!(matches!(run.step(&mut mesh), Step::Collapsed { .. } | Step::Degenerate(_)));
    let mut last = Step::Done;
    for _ in 0..20 {
        last = run.step(&mut mesh);
        if last == Step::Done || last == Step::Exhausted {
            break;
        }
    }
    assert!(last == Step::Done || last == Step::Exhausted);
    assert!(mesh.face_count() <= 1);
}

#[test]
fn face_count_never_goes_up() {
    let mut mesh = six_faces();
    let mut run = Decimator::new(&mesh, 2);
    let mut before = mesh.face_count();
    for _ in 0..30 {
        let step = run.step(&mut mesh);
        assert!(mesh.face_count() <= before);
        before = mesh.face_count();
        for i in 0..mesh.nodes().len() {
            if !mesh.nodes()[i].is_removed {
                assert!(mesh.check_relatives(i as u32));
                assert!(mesh.check_siblings(i as u32));
            }
        }
        assert_eq!(SharedMesh::from(&mesh).triangles.len() as u32, mesh.face_count());
        if step == Step::Done || step == Step::Exhausted {
            break;
        }
    }
    assert!(mesh.face_count() <= 2);
}

#[test]
fn change_priority_leaves_unknown_edges_out() {
    let mesh = square();
    let mut run = Decimator::new(&mesh, 1);
    assert_eq!(run.change_priority(Edge::new(1, 3), 4), None);
    assert_eq!(run.priority(Edge::new(1, 3)), None);
    assert_eq!(run.change_priority(Edge::new(1, 0), 4), Some(0));
    assert_eq!(run.priority(Edge::new(0, 1)), Some(4));
    assert_eq!(run.change_priority(Edge::new(0, 1), 2), Some(4));
    assert_eq!(run.push(Edge::new(1, 3), 6), None);
    assert_eq!(run.priority(Edge::new(3, 1)), Some(6));
}

#[test]
fn settle_without_an_entry_is_exhausted() {
    let mut mesh = square();
    let mut run = Decimator::new(&mesh, 0);
    assert_eq!(run.settle(&mut mesh, None), Step::Exhausted);
    assert_eq!(mesh.face_count(), 2);
}

#[test]
fn settle_collapses_the_second_end_into_the_first() {
    let mut mesh = square();
    let mut run = Decimator::new(&mesh, 0);
    let key = Edge::new(1, 0).key();
    let step = run.settle(&mut mesh, Some((key, 0)));
    assert_eq!(step, Step::Collapsed { edge: Edge::new(0, 1), node: 3 });
    assert_eq!(mesh.face_count(), 1);
    assert_eq!(run.representative(0), Some(3));
    assert_eq!(run.representative(1), None);
    assert_eq!(run.representative(2), Some(4));
}

/// A flat grid of `n` by `n` squares, each split into two triangles.
fn grid(n: u32) -> ConnectedMesh<Point> {
    let mut positions = Vec::new();
    for y in 0..=n {
        for x in 0..=n {
            positions.push([x as f64, y as f64, 0.]);
        }
    }
    let mut triangles = Vec::new();
    for y in 0..n {
        for x in 0..n {
            let a = y * (n + 1) + x;
            let b = a + 1;
            let c = a + n + 2;
            let d = a + n + 1;
            triangles.push(U32Vec3::new(a, b, c));
            triangles.push(U32Vec3::new(a, c, d));
        }
    }
    let shared =
        SharedMesh { groups: Vec::new(), triangles, positions, normals: None, colors: None };
    assert!(shared.is_valid());
    ConnectedMesh::from(&shared)
}

/// The shorter an edge, the sooner it is collapsed.
fn score(mesh: &ConnectedMesh<Point>, edge: Edge) -> u64 {
    let a = mesh.positions()[edge.pos_a as usize];
    let b = mesh.positions()[edge.pos_b as usize];
    let length = (a[0] - b[0]).powi(2) + (a[1] - b[1]).powi(2) + (a[2] - b[2]).powi(2);
    u64::MAX - (length * 1000.) as u64
}

#[test]
fn a_scored_run_over_a_grid() {
    let mut mesh = grid(6);
    assert_eq!(mesh.face_count(), 72);
    let target = 20;
    let mut run = Decimator::new(&mesh, target);
    for i in 0..mesh.nodes().len() {
        let node = mesh.nodes()[i];
        let edge = Edge::new(node.position, mesh.nodes()[node.relative as usize].position);
        assert_eq!(run.change_priority(edge, score(&mesh, edge)).is_some(), true);
    }
    let mut collapses = 0;
    let mut last;
    loop {
        let before = mesh.face_count();
        last = run.step(&mut mesh);
        assert!(mesh.face_count() <= before);
        match last {
            Step::Done | Step::Exhausted => break,
            Step::Stale(_) | Step::Degenerate(_) => continue,
            Step::Collapsed { edge, node } => {
                collapses += 1;
                assert!(before > target);
                assert!(!mesh.nodes()[node as usize].is_removed);
                assert_eq!(mesh.nodes()[node as usize].position, edge.pos_a);
                assert_eq!(run.representative(edge.pos_b), None);
                // move the merged vertex to the middle of the edge
                let a = mesh.positions()[edge.pos_a as usize];
                let b = mesh.positions()[edge.pos_b as usize];
                mesh.set_position(node, [(a[0] + b[0]) / 2., (a[1] + b[1]) / 2., 0.]);
                // score the edges round the merged vertex again
                for corner in mesh.adjacent_corners(node) {
                    let other = mesh.nodes()[corner as usize].position;
                    assert_ne!(other, edge.pos_a);
                    let around = Edge::new(edge.pos_a, other);
                    run.push(around, score(&mesh, around));
                }
            }
        }
    }
    assert_eq!(last, Step::Done);
    assert!(collapses > 0);
    assert!(mesh.face_count() <= target);
    // every live node is on a triangle and on the ring of its vertex
    let mut live = 0;
    for i in 0..mesh.nodes().len() {
        if !mesh.nodes()[i].is_removed {
            live += 1;
            assert!(mesh.check_relatives(i as u32));
            let ring = mesh.siblings(i as u32);
            for sibling in ring {
                assert!(!mesh.nodes()[sibling as usize].is_removed);
                assert_eq!(
                    mesh.nodes()[sibling as usize].position,
                    mesh.nodes()[i].position
                );
            }
            let node = run.representative(mesh.nodes()[i].position).unwrap();
            assert_eq!(mesh.nodes()[node as usize].position, mesh.nodes()[i].position);
        }
    }
    assert_eq!(live, 3 * mesh.face_count() as usize);
    let flat = SharedMesh::from(&mesh);
    assert_eq!(flat.triangles.len() as u32, mesh.face_count());
    assert!(flat.is_valid());
    // the parts of the mesh are those of a well-formed mesh
    assert!(ConnectedMesh::from_parts(
        mesh.positions().clone(),
        None,
        mesh.nodes().clone(),
        mesh.face_count()
    )
    .is_some());
}
