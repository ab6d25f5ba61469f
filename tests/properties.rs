use baby_shark::corner_table::CornerTable;
use baby_shark::one_ring::{corners_around_vertex, faces_around_vertex, vertices_around_vertex};

fn unit_square() -> CornerTable<(i32, i32)> {
    let vertices = vec![(0, 1), (0, 0), (1, 0), (1, 1)];
    CornerTable::from_vertices_and_indices(&vertices, &vec![0, 1, 2, 2, 3, 0]).unwrap()
}

fn tetrahedron() -> CornerTable<[i32; 3]> {
    let vertices = vec![[0, 0, 0], [1, 0, 0], [0, 1, 0], [0, 0, 1]];
    let indices = vec![0, 2, 1, 0, 1, 3, 0, 3, 2, 1, 2, 3];
    CornerTable::from_vertices_and_indices(&vertices, &indices).unwrap()
}

#[test]
fn closed_mesh_has_three_halves_edges_per_face() {
    let mesh = tetrahedron();
    assert_eq!(mesh.face_count(), 4);
    assert_eq!(mesh.edges().len() * 2, 3 * mesh.face_count());
    for c in 0..mesh.corners.len() {
        assert!(!mesh.is_edge_on_boundary(c));
    }
}

#[test]
fn closed_mesh_rings_are_closed() {
    let mesh = tetrahedron();
    for v in 0..4 {
        let faces = faces_around_vertex(&mesh, v);
        assert_eq!(faces.len(), 3);
        let mut seen = faces.clone();
        seen.sort();
        seen.dedup();
        assert_eq!(seen.len(), 3);
        assert_eq!(vertices_around_vertex(&mesh, v).len(), 3);
    }
}

#[test]
fn round_trip_reproduces_input() {
    let vertices = vec![(0, 1), (0, 0), (1, 0), (1, 1), (2, 2)];
    let indices = vec![0, 1, 4, 1, 2, 4, 2, 3, 4, 3, 0, 4];
    let mesh = CornerTable::from_vertices_and_indices(&vertices, &indices).unwrap();
    let mut read_indices: Vec<usize> = Vec::new();
    for f in mesh.faces() {
        let (a, b, c) = mesh.face_vertices(f);
        read_indices.push(a);
        read_indices.push(b);
        read_indices.push(c);
    }
    assert_eq!(read_indices, indices);
    let read_vertices: Vec<(i32, i32)> =
        mesh.vertices().iter().map(|&v| *mesh.vertices[v].get_position()).collect();
    assert_eq!(read_vertices, vertices);
    assert_eq!(mesh.vertex_count(), 5);
}

#[test]
fn unit_square_edges_and_rings() {
    let mesh = unit_square();
    assert_eq!(mesh.edges(), vec![0, 1, 2, 3, 5]);
    assert_eq!(vertices_around_vertex(&mesh, 0), vec![3, 2, 1]);
    assert_eq!(faces_around_vertex(&mesh, 0), vec![4, 1]);
    assert_eq!(corners_around_vertex(&mesh, 0), vec![5, 0]);
    assert_eq!(vertices_around_vertex(&mesh, 1), vec![0, 2]);
    assert_eq!(faces_around_vertex(&mesh, 1), vec![0]);
    assert_eq!(corners_around_vertex(&mesh, 1), vec![1]);
    assert_eq!(vertices_around_vertex(&mesh, 2), vec![0, 1, 3]);
    assert_eq!(faces_around_vertex(&mesh, 2), vec![5, 1]);
    assert_eq!(corners_around_vertex(&mesh, 2), vec![3, 2]);
    assert_eq!(vertices_around_vertex(&mesh, 3), vec![2, 0]);
    assert_eq!(faces_around_vertex(&mesh, 3), vec![3]);
    assert_eq!(corners_around_vertex(&mesh, 3), vec![4]);
}

#[test]
fn edge_count_counts_boundary_corners_once() {
    let mesh = unit_square();
    let boundary = (0..mesh.corners.len()).filter(|&c| mesh.is_edge_on_boundary(c)).count();
    assert_eq!(boundary, 4);
    assert_eq!(2 * mesh.edges().len(), 3 * mesh.face_count() + boundary);
}
