use polyanya::topology::MeshTopology;
use polyanya::triangulation::{normalize_neighbours, topology_from_triangulation, TriangleFace};

#[test]
fn lonely_vertex_touches_only_outside() {
    assert_eq!(normalize_neighbours(&vec![-1, -1, -1]), vec![-1]);
    assert_eq!(normalize_neighbours(&vec![]), vec![-1]);
}

#[test]
fn neighbours_start_with_a_polygon_without_repeats() {
    assert_eq!(normalize_neighbours(&vec![-1, 2, 2, 3, -1]), vec![2, 3, -1]);
    assert_eq!(normalize_neighbours(&vec![4, 4, 4]), vec![4]);
    assert_eq!(normalize_neighbours(&vec![-1, -1, 0, 1, 1, -1, 5]), vec![0, 1, -1, 5, -1]);
}

#[test]
fn triangles_inside_become_numbered_polygons() {
    // Faces 0 (outer), 1 and 3 inside, 2 outside the meshed area. Four vertices.
    let faces = vec![
        TriangleFace { index: 1, vertices: vec![0, 1, 2], inside: true },
        TriangleFace { index: 2, vertices: vec![1, 3, 2], inside: false },
        TriangleFace { index: 3, vertices: vec![0, 2, 3], inside: true },
    ];
    let vertex_faces = vec![vec![0, 1, 3], vec![0, 2, 1], vec![1, 2, 3], vec![0, 3, 2]];
    let mut topology: MeshTopology = topology_from_triangulation(4, &faces, &vertex_faces);
    assert_eq!(topology.polygons.len(), 2);
    assert_eq!(topology.polygons[0].vertices, vec![0, 1, 2]);
    assert_eq!(topology.polygons[1].vertices, vec![0, 2, 3]);
    assert!(!topology.polygons[0].is_one_way);
    assert_eq!(
        topology.vertex_polygons,
        vec![vec![0, 1, -1], vec![0, -1], vec![0, -1, 1], vec![1, -1]]
    );
    assert!(topology.is_well_formed());
    topology.bake_islands_detection();
    assert_eq!(topology.islands, Some(vec![0, 0]));
}
