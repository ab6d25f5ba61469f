use baby_shark::corner_table::CornerTable;
use baby_shark::decimation::{CollapseCandidate, CollapseMetric, EdgeDecimator, Verdict};
use baby_shark::one_ring::faces_around_vertex;
use nalgebra::Point3;

type CornerTableF = CornerTable<Point3<f32>>;

fn create_unit_cross_square_mesh() -> CornerTableF {
    let vertices = vec![
        Point3::<f32>::new(0.0, 1.0, 0.0),
        Point3::<f32>::new(0.0, 0.0, 0.0),
        Point3::<f32>::new(1.0, 0.0, 0.0),
        Point3::<f32>::new(1.0, 1.0, 0.0),
        Point3::<f32>::new(0.5, 0.5, 0.0),
    ];
    let indices = vec![0, 1, 4, 1, 2, 4, 2, 3, 4, 3, 0, 4];
    CornerTableF::from_vertices_and_indices(&vertices, &indices).unwrap()
}

fn create_collapse_edge_sample_mesh() -> CornerTableF {
    let vertices = vec![
        Point3::<f32>::new(0.0, 1.0, 0.0),
        Point3::<f32>::new(0.0, 0.5, 0.0),
        Point3::<f32>::new(0.0, 0.0, 0.0),
        Point3::<f32>::new(0.5, 0.0, 0.0),
        Point3::<f32>::new(1.0, 0.0, 0.0),
        Point3::<f32>::new(1.0, 0.5, 0.0),
        Point3::<f32>::new(1.0, 1.0, 0.0),
        Point3::<f32>::new(0.5, 1.0, 0.0),
        Point3::<f32>::new(0.25, 0.5, 0.0),
        Point3::<f32>::new(0.75, 0.5, 0.0),
    ];
    let indices = vec![
        0, 1, 8, 1, 2, 8, 2, 3, 8, 3, 9, 8, 3, 4, 9, 4, 5, 9, 5, 6, 9, 6, 7, 9, 7, 8, 9, 7, 0, 8,
    ];
    CornerTableF::from_vertices_and_indices(&vertices, &indices).unwrap()
}

/// Planar metric: the cost is the squared edge length, the merged vertex stays at the
/// first end vertex, and no face of the xy-plane may turn clockwise.
struct PlanarMetric;

fn signed_area(a: &Point3<f32>, b: &Point3<f32>, c: &Point3<f32>) -> f32 {
    (b.x - a.x) * (c.y - a.y) - (c.x - a.x) * (b.y - a.y)
}

fn next(c: usize) -> usize {
    if c % 3 == 2 { c - 2 } else { c + 1 }
}

fn prev(c: usize) -> usize {
    if c % 3 == 0 { c + 2 } else { c - 1 }
}

impl CollapseMetric<Point3<f32>> for PlanarMetric {
    fn collapse_cost(&self, mesh: &CornerTableF, corner: usize) -> (u64, Point3<f32>) {
        let a = mesh.vertices[mesh.corners[next(corner)].vertex_index].position;
        let b = mesh.vertices[mesh.corners[prev(corner)].vertex_index].position;
        let d = a - b;
        (((d.x * d.x + d.y * d.y) * 1000.0) as u64, a)
    }

    fn keeps_orientation(&self, mesh: &CornerTableF, corner: usize, position: &Point3<f32>) -> bool {
        let w = mesh.corners[next(corner)].vertex_index;
        let u = mesh.corners[prev(corner)].vertex_index;
        for f in mesh.faces() {
            let vs = mesh.face_vertices(f);
            let ids = [vs.0, vs.1, vs.2];
            if ids.contains(&w) && ids.contains(&u) {
                continue;
            }
            if !ids.contains(&w) && !ids.contains(&u) {
                continue;
            }
            let p: Vec<Point3<f32>> = ids
                .iter()
                .map(|&i| if i == w || i == u { *position } else { mesh.vertices[i].position })
                .collect();
            if signed_area(&p[0], &p[1], &p[2]) <= 0.0 {
                return false;
            }
        }
        true
    }

    fn vertices_merged(&mut self, _survivor: usize, _removed: usize) {}
}

fn assert_valid(mesh: &CornerTableF) {
    for c in 0..mesh.corners.len() {
        if let Some(o) = mesh.corners[c].opposite_corner_index {
            assert_eq!(mesh.corners[o].opposite_corner_index, Some(c));
            assert_eq!(mesh.corners[o].deleted, mesh.corners[c].deleted);
        }
    }
    for f in mesh.faces() {
        let (a, b, c) = mesh.face_vertices(f);
        assert!(a != b && b != c && a != c);
        let pa = mesh.vertices[a].position;
        let pb = mesh.vertices[b].position;
        let pc = mesh.vertices[c].position;
        assert!(signed_area(&pa, &pb, &pc) > 0.0);
        assert!(!mesh.vertices[a].deleted && !mesh.vertices[b].deleted && !mesh.vertices[c].deleted);
    }
    for v in mesh.vertices() {
        let k = mesh.vertices[v].corner_index;
        assert_eq!(mesh.corners[k].vertex_index, v);
        assert!(!mesh.corners[k].deleted);
    }
}

#[test]
fn decimate_cross_square_with_large_bound() {
    let mut mesh = create_unit_cross_square_mesh();
    let decimator = EdgeDecimator::new(u64::MAX);
    let collapses = decimator.decimate(&mut mesh, &mut PlanarMetric);
    assert!(collapses > 0);
    assert!(mesh.face_count() < 4);
    assert_eq!(mesh.face_count(), 2);
    assert_valid(&mesh);
}

#[test]
fn decimate_with_zero_bound_changes_nothing() {
    let mut mesh = create_unit_cross_square_mesh();
    let before_corners = mesh.corners.clone();
    let before_vertices = mesh.vertices.clone();
    let decimator = EdgeDecimator::new(0);
    assert_eq!(decimator.decimate(&mut mesh, &mut PlanarMetric), 0);
    assert_eq!(mesh.corners, before_corners);
    assert_eq!(mesh.vertices, before_vertices);
}

#[test]
fn decimate_never_adds_faces() {
    let mut mesh = create_collapse_edge_sample_mesh();
    let before = mesh.face_count();
    let decimator = EdgeDecimator::new(u64::MAX);
    let collapses = decimator.decimate(&mut mesh, &mut PlanarMetric);
    assert!(mesh.face_count() + collapses <= before);
    assert_valid(&mesh);
}

#[test]
fn decimate_small_bound_keeps_long_edges() {
    let mut mesh = create_collapse_edge_sample_mesh();
    // Every edge costs more than the bound: the shortest, of length 0.25, costs 62.
    let decimator = EdgeDecimator::new(1);
    assert_eq!(decimator.decimate(&mut mesh, &mut PlanarMetric), 0);
    assert_eq!(mesh.face_count(), 10);
}

#[test]
fn collapse_spoke_of_cross_square() {
    let mut mesh = create_unit_cross_square_mesh();
    // Corner 0 stands for the edge 1-4; its first end vertex is 1.
    assert!(mesh.is_collapse_valid(0));
    mesh.collapse_edge(0, Point3::<f32>::new(0.0, 0.0, 0.0));
    assert_eq!(mesh.face_count(), 2);
    assert!(mesh.vertices[4].deleted);
    assert_eq!(mesh.vertex_count(), 4);
    assert_eq!(mesh.faces(), vec![6, 9]);
    assert_eq!(mesh.face_vertices(6), (2, 3, 1));
    assert_eq!(mesh.face_vertices(9), (3, 0, 1));
    assert_eq!(mesh.corners[6].opposite_corner_index, Some(10));
    assert_eq!(mesh.corners[10].opposite_corner_index, Some(6));
    assert_eq!(mesh.corners[7].opposite_corner_index, None);
    assert_eq!(mesh.corners[9].opposite_corner_index, None);
    assert_eq!(mesh.corners[8].vertex_index, 1);
    assert_eq!(mesh.corners[11].vertex_index, 1);
    assert_valid(&mesh);
    assert_eq!(faces_around_vertex(&mesh, 1).len(), 2);
}

#[test]
fn collapse_rejected_when_faces_vanish() {
    let vertices = vec![
        Point3::<f32>::new(0.0, 1.0, 0.0),
        Point3::<f32>::new(0.0, 0.0, 0.0),
        Point3::<f32>::new(1.0, 0.0, 0.0),
        Point3::<f32>::new(1.0, 1.0, 0.0),
    ];
    let mesh = CornerTableF::from_vertices_and_indices(&vertices, &vec![0, 1, 2, 2, 3, 0]).unwrap();
    // The diagonal would remove both faces.
    assert!(!mesh.is_collapse_valid(1));
    assert!(mesh.is_collapse_ready(1));
    // A boundary edge would leave its merged vertex with one face.
    assert!(!mesh.is_collapse_valid(0));
}

fn spoke_candidate(cost: u64, from_generation: usize) -> CollapseCandidate<Point3<f32>> {
    CollapseCandidate {
        corner: 0,
        cost,
        position: Point3::<f32>::new(0.0, 0.0, 0.0),
        from: 1,
        to: 4,
        from_generation,
        to_generation: 0,
    }
}

#[test]
fn judge_sorts_candidates() {
    let mesh = create_unit_cross_square_mesh();
    let generations = vec![0usize; 5];
    let decimator = EdgeDecimator::new(100);
    assert_eq!(decimator.judge(&mesh, &generations, &spoke_candidate(10, 0)), Verdict::Ready);
    assert_eq!(decimator.judge(&mesh, &generations, &spoke_candidate(100, 0)), Verdict::Stop);
    assert_eq!(decimator.judge(&mesh, &generations, &spoke_candidate(10, 7)), Verdict::Stale);
    let vertices = vec![
        Point3::<f32>::new(0.0, 1.0, 0.0),
        Point3::<f32>::new(0.0, 0.0, 0.0),
        Point3::<f32>::new(1.0, 0.0, 0.0),
        Point3::<f32>::new(1.0, 1.0, 0.0),
    ];
    let square = CornerTableF::from_vertices_and_indices(&vertices, &vec![0, 1, 2, 2, 3, 0]).unwrap();
    let mut diagonal = spoke_candidate(10, 0);
    diagonal.corner = 1;
    diagonal.from = 2;
    diagonal.to = 0;
    // Collapsing the diagonal would remove both faces.
    assert_eq!(decimator.judge(&square, &vec![0usize; 4], &diagonal), Verdict::Invalid);
}

#[test]
fn step_collapses_exactly_when_orientation_is_kept() {
    let mut mesh = create_unit_cross_square_mesh();
    let mut generations = vec![0usize; 5];
    let decimator = EdgeDecimator::new(100);
    let before = mesh.corners.clone();
    assert_eq!(
        decimator.step(&mut mesh, &mut generations, &spoke_candidate(10, 0), false),
        Verdict::Flipped
    );
    assert_eq!(mesh.corners, before);
    assert_eq!(generations, vec![0, 0, 0, 0, 0]);
    assert_eq!(
        decimator.step(&mut mesh, &mut generations, &spoke_candidate(10, 0), true),
        Verdict::Collapsed
    );
    assert_eq!(mesh.face_count(), 2);
    assert_eq!(generations, vec![0, 1, 0, 0, 0]);
    assert!(mesh.vertices[4].deleted);
    // The same candidate is now out of date.
    assert_eq!(
        decimator.step(&mut mesh, &mut generations, &spoke_candidate(10, 0), true),
        Verdict::Stale
    );
}

#[test]
fn cheapest_prefers_lowest_corner_on_ties() {
    let mut a = spoke_candidate(5, 0);
    a.corner = 3;
    let b = spoke_candidate(5, 0);
    let c = spoke_candidate(9, 0);
    assert_eq!(EdgeDecimator::cheapest(&vec![a, c, b]), 2);
}

#[test]
fn requeue_around_queues_live_edges_beside_each_corner() {
    let mesh = create_unit_cross_square_mesh();
    let generations = vec![0usize; 5];
    let mut queue = Vec::new();
    EdgeDecimator::requeue_around(&mesh, &PlanarMetric, &mut queue, &generations, 4);
    // Corners at vertex 4 are 11, 2, 5, 8; beside each, its next and previous corner.
    let corners: Vec<usize> = queue.iter().map(|c| c.corner).collect();
    assert_eq!(corners, vec![9, 10, 0, 1, 3, 4, 6, 7]);
    assert!(queue.iter().all(|c| c.to == 4 || c.from == 4 || mesh.corners[c.corner].vertex_index == 4));
    let mut empty = Vec::new();
    EdgeDecimator::requeue_around(&mesh, &PlanarMetric, &mut empty, &generations, 17);
    assert!(empty.is_empty());
    let mut one = Vec::new();
    EdgeDecimator::requeue(&mesh, &PlanarMetric, &mut one, &generations, 0);
    assert_eq!(one.len(), 1);
    assert_eq!((one[0].corner, one[0].from, one[0].to), (0, 1, 4));
}
