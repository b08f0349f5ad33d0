use polyanya::topology::{MeshTopology, Polygon};

/// The index structure of a 3x2 grid of unit squares with the two upper corners cut off:
/// polygons 0, 1, 2 along the bottom, 3 above 0 and 4 above 2.
fn u_grid() -> MeshTopology {
    MeshTopology::new(
        vec![
            vec![0, -1],
            vec![0, 1, -1],
            vec![1, 2, -1],
            vec![2, -1],
            vec![3, 0, -1],
            vec![3, 1, 0, -1],
            vec![4, 2, 1, -1],
            vec![4, 2, -1],
            vec![3, -1],
            vec![3, -1],
            vec![4, -1],
            vec![4, -1],
        ],
        vec![
            Polygon::new(vec![0, 1, 5, 4], false),
            Polygon::new(vec![1, 2, 6, 5], false),
            Polygon::new(vec![2, 3, 7, 6], false),
            Polygon::new(vec![4, 5, 9, 8], true),
            Polygon::new(vec![6, 7, 11, 10], true),
        ],
    )
}

/// Two squares side by side, then two more squares side by side, not touching the first ones.
fn two_islands() -> MeshTopology {
    MeshTopology::new(
        vec![
            vec![0, -1],
            vec![0, 1, -1],
            vec![1, -1],
            vec![0, -1],
            vec![0, 1, -1],
            vec![1, -1],
            vec![2, -1],
            vec![2, 3, -1],
            vec![3, -1],
            vec![2, -1],
            vec![2, 3, -1],
            vec![3, -1],
        ],
        vec![
            Polygon::new(vec![0, 1, 4, 3], false),
            Polygon::new(vec![1, 2, 5, 4], false),
            Polygon::new(vec![6, 7, 10, 9], false),
            Polygon::new(vec![7, 8, 11, 10], false),
        ],
    )
}

#[test]
fn u_grid_is_one_island() {
    let mut mesh = u_grid();
    assert!(mesh.is_well_formed());
    mesh.bake_islands_detection();
    assert_eq!(mesh.islands, Some(vec![0, 0, 0, 0, 0]));
    assert_eq!(mesh.island_of(4), Some(0));
    assert_eq!(mesh.island_of(5), None);
}

#[test]
fn separated_squares_make_two_islands() {
    let mut mesh = two_islands();
    mesh.bake_islands_detection();
    assert_eq!(mesh.islands, Some(vec![0, 0, 2, 2]));
    assert_eq!(mesh.same_island(0, 1), Some(true));
    assert_eq!(mesh.same_island(1, 2), Some(false));
    assert_eq!(mesh.same_island(1, 7), None);
    assert!(mesh.in_island(3, 2));
    assert!(!mesh.in_island(3, 0));
}

#[test]
fn island_label_is_least_polygon_reaching() {
    // One-way adjacency: 0 sees 2, 1 sees 0 and itself, 2 sees itself. Polygon 1 can only be
    // reached from itself, so it is its own island.
    let mut mesh = MeshTopology::new(
        vec![vec![1, 0, -1], vec![2], vec![-1]],
        vec![
            Polygon::new(vec![1, 2], false),
            Polygon::new(vec![0], false),
            Polygon::new(vec![1], false),
        ],
    );
    mesh.bake_islands_detection();
    assert_eq!(mesh.islands, Some(vec![0, 1, 0]));
}

#[test]
fn baking_twice_gives_the_same_islands() {
    let mut mesh = two_islands();
    mesh.bake_islands_detection();
    let first = mesh.islands.clone();
    mesh.bake_islands_detection();
    assert_eq!(mesh.islands, first);
}

#[test]
fn island_root_labels_itself() {
    let mut mesh = two_islands();
    mesh.bake_islands_detection();
    let islands = mesh.islands.clone().unwrap();
    for label in &islands {
        assert_eq!(islands[*label], *label);
    }
}

#[test]
fn unbake_forgets_islands() {
    let mut mesh = u_grid();
    mesh.bake_islands_detection();
    mesh.unbake();
    assert_eq!(mesh.islands, None);
    assert_eq!(mesh.island_of(0), None);
}

#[test]
fn out_of_range_indices_are_not_well_formed() {
    let mesh = MeshTopology::new(vec![vec![0, -1]], vec![Polygon::new(vec![0, 1], false)]);
    assert!(!mesh.is_well_formed());
    let mesh = MeshTopology::new(vec![vec![1]], vec![Polygon::new(vec![0], false)]);
    assert!(!mesh.is_well_formed());
    let mesh = MeshTopology::new(vec![vec![-2]], vec![Polygon::new(vec![0], false)]);
    assert!(!mesh.is_well_formed());
}
