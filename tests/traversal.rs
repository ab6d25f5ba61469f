use baby_shark::corner_table::{Corner, CornerTable, MeshError, Vertex};
use baby_shark::one_ring::{
    collect_corners_around_vertex, corners_around_vertex, faces_around_vertex,
    vertices_around_vertex,
};
use baby_shark::traversal::{
    CornerTableEdgesIter, CornerTableFacesIter, CornerTableVerticesIter, CornerWalker,
};
use nalgebra::Point3;

type CornerTableF = CornerTable<Point3<f32>>;

fn create_unit_square_mesh() -> CornerTableF {
    let vertices = vec![
        Point3::<f32>::new(0.0, 1.0, 0.0),
        Point3::<f32>::new(0.0, 0.0, 0.0),
        Point3::<f32>::new(1.0, 0.0, 0.0),
        Point3::<f32>::new(1.0, 1.0, 0.0),
    ];
    let indices = vec![0, 1, 2, 2, 3, 0];
    CornerTableF::from_vertices_and_indices(&vertices, &indices).unwrap()
}

fn create_unit_cross_square_mesh() -> CornerTableF {
    let vertices = vec![
        Point3::<f32>::new(0.0, 1.0, 0.0),
        Point3::<f32>::new(0.0, 0.0, 0.0),
        Point3::<f32>::new(1.0, 0.0, 0.0),
        Point3::<f32>::new(1.0, 1.0, 0.0),
        Point3::<f32>::new(0.5, 0.5, 0.0),
    ];
    let indices = vec![0, 1, 4, 1, 2, 4, 2, 3, 4, 3, 0, 4];
    CornerTableF::from_vertices_and_indices(&vertices, &indices).unwrap()
}

fn create_single_face_mesh() -> CornerTableF {
    let vertices = vec![
        Point3::<f32>::new(0.0, 1.0, 0.0),
        Point3::<f32>::new(0.0, 0.0, 0.0),
        Point3::<f32>::new(1.0, 0.0, 0.0),
    ];
    let indices = vec![0, 1, 2];
    CornerTableF::from_vertices_and_indices(&vertices, &indices).unwrap()
}

fn assert_mesh_equals(
    mesh: &CornerTableF,
    expected_corners: &Vec<Corner>,
    expected_vertices: &Vec<Vertex<Point3<f32>>>,
) {
    assert_eq!(expected_vertices.len(), mesh.vertices.len());
    assert_eq!(expected_corners.len(), mesh.corners.len());
    for i in 0..expected_vertices.len() {
        assert_eq!(expected_vertices[i], mesh.vertices[i]);
    }
    for i in 0..expected_corners.len() {
        assert_eq!(expected_corners[i], mesh.corners[i]);
    }
}

#[test]
fn edges_iterator() {
    let mesh = create_unit_square_mesh();
    let expected_edges: Vec<usize> = vec![0, 1, 2, 3, 5];

    assert_eq!(expected_edges.len(), mesh.edges().len());

    let pairs = mesh.edges().into_iter().zip(expected_edges.iter());
    for pair in pairs {
        assert_eq!(pair.0, *pair.1);
    }
}

#[test]
fn corners_around_internal_vertex_macro() {
    let mesh = create_unit_cross_square_mesh();
    let expected_corners: Vec<usize> = vec![11, 2, 5, 8];
    let corners: Vec<usize> = corners_around_vertex(&mesh, 4);
    assert_eq!(corners, expected_corners);
}

#[test]
fn corners_around_boundary_vertex_macro() {
    let mesh = create_unit_cross_square_mesh();
    let expected_corners: Vec<usize> = vec![10, 0];
    let corners: Vec<usize> = corners_around_vertex(&mesh, 0);
    assert_eq!(corners, expected_corners);
}

#[test]
fn vertices_around_internal_vertex_macro() {
    let mesh = create_unit_cross_square_mesh();
    let expected_vertices: Vec<usize> = vec![0, 1, 2, 3];
    let vertices: Vec<usize> = vertices_around_vertex(&mesh, 4);
    assert_eq!(vertices, expected_vertices);
}

#[test]
fn vertices_around_boundary_vertex_macro() {
    let mesh = create_unit_cross_square_mesh();
    let expected_vertices: Vec<usize> = vec![3, 4, 1];
    let vertices: Vec<usize> = vertices_around_vertex(&mesh, 0);
    assert_eq!(vertices, expected_vertices);
}

#[test]
fn faces_around_internal_vertex_macro() {
    let mesh = create_unit_cross_square_mesh();
    let expected_faces: Vec<usize> = vec![10, 1, 4, 7];
    let faces: Vec<usize> = faces_around_vertex(&mesh, 4);
    assert_eq!(faces, expected_faces);
}

#[test]
fn faces_around_boundary_vertex_macro() {
    let mesh = create_unit_cross_square_mesh();
    let expected_faces: Vec<usize> = vec![9, 1];
    let faces: Vec<usize> = faces_around_vertex(&mesh, 0);
    assert_eq!(faces, expected_faces);
}

#[test]
fn collect_corners_matches_visit_order() {
    let mesh = create_unit_cross_square_mesh();
    assert_eq!(collect_corners_around_vertex(&mesh, 4), vec![11, 2, 5, 8]);
}

#[test]
fn construction_links_opposites_symmetrically() {
    let mesh = create_unit_cross_square_mesh();
    for c in 0..mesh.corners.len() {
        if let Some(o) = mesh.corners[c].opposite_corner_index {
            assert_eq!(mesh.corners[o].opposite_corner_index, Some(c));
        }
    }
    // The two triangles of the square share the diagonal 0-2.
    let square = create_unit_square_mesh();
    assert_eq!(square.corners[1].opposite_corner_index, Some(4));
    assert_eq!(square.corners[4].opposite_corner_index, Some(1));
    assert_eq!(square.corners[0].opposite_corner_index, None);
}

#[test]
fn construction_single_face() {
    let mesh = create_single_face_mesh();
    let p = |x: f32, y: f32| Point3::<f32>::new(x, y, 0.0);
    let expected_corners = vec![
        Corner { vertex_index: 0, opposite_corner_index: None, deleted: false },
        Corner { vertex_index: 1, opposite_corner_index: None, deleted: false },
        Corner { vertex_index: 2, opposite_corner_index: None, deleted: false },
    ];
    let expected_vertices = vec![
        Vertex { position: p(0.0, 1.0), corner_index: 0, deleted: false },
        Vertex { position: p(0.0, 0.0), corner_index: 1, deleted: false },
        Vertex { position: p(1.0, 0.0), corner_index: 2, deleted: false },
    ];
    assert_mesh_equals(&mesh, &expected_corners, &expected_vertices);
}

#[test]
fn construction_rejects_bad_input() {
    let vertices = vec![
        Point3::<f32>::new(0.0, 0.0, 0.0),
        Point3::<f32>::new(1.0, 0.0, 0.0),
        Point3::<f32>::new(0.0, 1.0, 0.0),
        Point3::<f32>::new(0.0, 0.0, 1.0),
        Point3::<f32>::new(1.0, 1.0, 1.0),
    ];
    // Not a multiple of three.
    let r = CornerTableF::from_vertices_and_indices(&vertices, &vec![0, 1]);
    assert_eq!(r.err(), Some(MeshError::InvalidTopology));
    // Index out of range.
    let r = CornerTableF::from_vertices_and_indices(&vertices, &vec![0, 1, 7]);
    assert_eq!(r.err(), Some(MeshError::InvalidTopology));
    // Repeated vertex in a triangle.
    let r = CornerTableF::from_vertices_and_indices(&vertices, &vec![0, 1, 1]);
    assert_eq!(r.err(), Some(MeshError::InvalidTopology));
    // Edge 0-1 shared by three triangles.
    let r = CornerTableF::from_vertices_and_indices(&vertices, &vec![0, 1, 2, 1, 0, 3, 1, 0, 4]);
    assert_eq!(r.err(), Some(MeshError::InvalidTopology));
}

#[test]
fn unused_vertex_is_marked_deleted() {
    let vertices = vec![
        Point3::<f32>::new(0.0, 0.0, 0.0),
        Point3::<f32>::new(1.0, 0.0, 0.0),
        Point3::<f32>::new(0.0, 1.0, 0.0),
        Point3::<f32>::new(5.0, 5.0, 5.0),
    ];
    let mesh = CornerTableF::from_vertices_and_indices(&vertices, &vec![0, 1, 2]).unwrap();
    assert!(mesh.vertices[3].deleted);
    assert_eq!(mesh.vertices(), vec![0, 1, 2]);
}

#[test]
fn faces_and_vertices_iterators() {
    let mesh = create_unit_cross_square_mesh();
    assert_eq!(mesh.faces(), vec![0, 3, 6, 9]);
    assert_eq!(mesh.vertices(), vec![0, 1, 2, 3, 4]);
    let mut it = CornerTableFacesIter::new(&mesh);
    assert_eq!(it.next(), Some(0));
    assert_eq!(it.next(), Some(3));
    let mut vit = CornerTableVerticesIter::new(&mesh);
    assert_eq!(vit.next(), Some(0));
    let mut eit = CornerTableEdgesIter::new(&mesh);
    assert_eq!(eit.next(), Some(0));
}

#[test]
fn edges_of_cross_square() {
    let mesh = create_unit_cross_square_mesh();
    // 4 boundary edges and 4 spokes.
    assert_eq!(mesh.edges().len(), 8);
}

#[test]
fn walker_moves() {
    let mesh = create_unit_cross_square_mesh();
    let mut w = CornerWalker::from_corner(&mesh, 0);
    w.next();
    assert_eq!(w.get_corner_index(), 1);
    w.previous();
    assert_eq!(w.get_corner_index(), 0);
    w.opposite();
    assert_eq!(w.get_corner_index(), 4);
    assert_eq!(w.get_corner().vertex_index, 2);
    assert_eq!(w.get_vertex().corner_index, 6);
    let mut w = CornerWalker::from_vertex(&mesh, 4);
    assert_eq!(w.get_corner_index(), 11);
    assert!(w.can_swing_left());
    assert!(w.can_swing_right());
    w.swing_left();
    assert_eq!(w.get_corner_index(), 2);
    w.swing_right();
    assert_eq!(w.get_corner_index(), 11);
    let mut w = CornerWalker::from_corner(&mesh, 0);
    assert!(!w.can_swing_right());
    assert!(!w.swing_right_or_stay());
    assert_eq!(w.get_corner_index(), 0);
    assert!(w.swing_left_or_stay());
    assert_eq!(w.get_corner_index(), 10);
    assert_eq!(w.get_previous_corner_index(), 9);
    assert_eq!(w.get_next_corner().vertex_index, 4);
    assert_eq!(w.get_previous_corner().vertex_index, 3);
    assert_eq!(w.get_opposite_corner().map(|c| c.vertex_index), Some(2));
    w.set_current_corner(2);
    assert_eq!(w.get_opposite_corner(), None);
    w.right();
    assert_eq!(w.get_corner_index(), 4);
    let mut w = CornerWalker::from_corner(&mesh, 1);
    w.left();
    assert_eq!(w.get_corner_index(), 4);
}

#[test]
fn indexed_access_past_the_end_is_none() {
    let mesh = create_unit_square_mesh();
    assert_eq!(mesh.get_vertex(4), None);
    assert_eq!(mesh.get_corner(6), None);
    assert_eq!(mesh.get_vertex(3).map(|v| v.corner_index), Some(4));
    assert_eq!(mesh.get_corner(5).map(|c| c.vertex_index), Some(0));
    assert_eq!(mesh.face_count(), 2);
    assert_eq!(mesh.vertex_count(), 4);
    assert!(mesh.is_edge_on_boundary(0));
    assert!(!mesh.is_edge_on_boundary(1));
}

#[test]
fn one_ring_of_missing_or_deleted_vertex_is_empty() {
    let mesh = create_unit_cross_square_mesh();
    assert!(faces_around_vertex(&mesh, 5).is_empty());
    assert!(corners_around_vertex(&mesh, 99).is_empty());
    assert!(vertices_around_vertex(&mesh, 5).is_empty());
    assert!(collect_corners_around_vertex(&mesh, 7).is_empty());
    let vertices = vec![
        Point3::<f32>::new(0.0, 0.0, 0.0),
        Point3::<f32>::new(1.0, 0.0, 0.0),
        Point3::<f32>::new(0.0, 1.0, 0.0),
        Point3::<f32>::new(5.0, 5.0, 5.0),
    ];
    let mesh = CornerTableF::from_vertices_and_indices(&vertices, &vec![0, 1, 2]).unwrap();
    assert!(mesh.vertices[3].deleted);
    assert!(faces_around_vertex(&mesh, 3).is_empty());
    assert!(vertices_around_vertex(&mesh, 3).is_empty());
}
