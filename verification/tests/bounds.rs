use polyanya::bounds::bounds_as_line_strings;

fn keys(v: &[u64]) -> Vec<Option<u64>> {
    v.iter().map(|k| Some(*k)).collect()
}

#[test]
fn square_boundary_is_one_closed_string() {
    let exterior = keys(&[1, 2, 3, 4, 1]);
    let rings = vec![keys(&[1, 2, 3, 4, 1])];
    assert_eq!(bounds_as_line_strings(&exterior, &rings), Some(vec![vec![0, 1, 2, 3, 4]]));
}

#[test]
fn two_polygons_give_two_strings() {
    let exterior = keys(&[1, 2, 3, 1, 5, 6, 7, 5]);
    let rings = vec![keys(&[1, 2, 3, 1]), keys(&[5, 6, 7, 5])];
    assert_eq!(
        bounds_as_line_strings(&exterior, &rings),
        Some(vec![vec![0, 1, 2, 3], vec![4, 5, 6, 7]])
    );
}

#[test]
fn edge_shared_by_two_rings_cannot_be_separated() {
    let exterior = keys(&[1, 2, 3, 1]);
    let rings = vec![keys(&[1, 2, 3, 1]), keys(&[1, 2, 9, 1])];
    assert_eq!(bounds_as_line_strings(&exterior, &rings), None);
}

#[test]
fn undefined_coordinates_match_nothing() {
    let exterior = vec![Some(1), None, Some(3), Some(1)];
    let rings = vec![exterior.clone()];
    assert_eq!(bounds_as_line_strings(&exterior, &rings), Some(vec![vec![], vec![2, 3, 2]]));
}

#[test]
fn no_coordinates_no_strings() {
    assert_eq!(bounds_as_line_strings(&vec![], &vec![]), Some(vec![]));
    assert_eq!(bounds_as_line_strings(&vec![Some(4)], &vec![vec![Some(4)]]), Some(vec![]));
}
