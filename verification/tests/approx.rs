use polyanya::approx::{ApproxStep, EndCorrection, Route, SearchOutcome, OUTSIDE};
use polyanya::status::{DifferentIslandMode, NavigationResultStatus, PathApproxResultEnum};
use polyanya::topology::{MeshTopology, Polygon};

/// Polygons 0 and 1 share an edge; polygon 2 stands apart.
fn baked() -> MeshTopology {
    let mut mesh = MeshTopology::new(
        vec![
            vec![0, -1],
            vec![0, 1, -1],
            vec![1, -1],
            vec![0, -1],
            vec![0, 1, -1],
            vec![1, -1],
            vec![2, -1],
            vec![2, -1],
            vec![2, -1],
        ],
        vec![
            Polygon::new(vec![0, 1, 4, 3], false),
            Polygon::new(vec![1, 2, 5, 4], false),
            Polygon::new(vec![6, 7, 8], false),
        ],
    );
    mesh.bake_islands_detection();
    mesh
}

#[test]
fn path_route_cases() {
    let mesh = baked();
    assert_eq!(mesh.path_route(OUTSIDE, 0), Route::Unreachable);
    assert_eq!(mesh.path_route(0, OUTSIDE), Route::Unreachable);
    assert_eq!(mesh.path_route(0, 2), Route::Unreachable);
    assert_eq!(mesh.path_route(1, 1), Route::Direct);
    assert_eq!(mesh.path_route(0, 1), Route::Search { max_steps: 3000 });
}

#[test]
fn path_route_without_islands_searches() {
    let mut mesh = baked();
    mesh.unbake();
    assert_eq!(mesh.path_route(0, 2), Route::Search { max_steps: 3000 });
}

#[test]
fn approx_first_step_cases() {
    let mesh = baked();
    assert_eq!(mesh.approx_path_first_step(OUTSIDE, OUTSIDE), ApproxStep::Direct(PathApproxResultEnum::BothOutside));
    assert_eq!(mesh.approx_path_first_step(OUTSIDE, 1), ApproxStep::MoveStart);
    assert_eq!(
        mesh.approx_path_first_step(1, OUTSIDE),
        ApproxStep::MoveEnd { island: 0, status: PathApproxResultEnum::EndOutside }
    );
    assert_eq!(
        mesh.approx_path_first_step(2, OUTSIDE),
        ApproxStep::MoveEnd { island: 2, status: PathApproxResultEnum::EndOutside }
    );
    assert_eq!(
        mesh.approx_path_first_step(1, 2),
        ApproxStep::MoveEnd { island: 0, status: PathApproxResultEnum::NoPath }
    );
    assert_eq!(mesh.approx_path_first_step(1, 1), ApproxStep::Direct(PathApproxResultEnum::ValidPath));
    assert_eq!(
        mesh.approx_path_first_step(0, 1),
        ApproxStep::Search { max_steps: 3000, status: PathApproxResultEnum::ValidPath }
    );
}

#[test]
fn approx_start_moved_keeps_end_on_the_same_island() {
    let mesh = baked();
    assert_eq!(
        mesh.approx_path_start_moved(Some(0), 1),
        ApproxStep::Search { max_steps: 3000, status: PathApproxResultEnum::StartOutside }
    );
    // Start and end in one polygon after the move: straight path, still reported as moved.
    assert_eq!(mesh.approx_path_start_moved(Some(1), 1), ApproxStep::Direct(PathApproxResultEnum::StartOutside));
}

#[test]
fn approx_start_moved_moves_end_onto_the_start_island() {
    let mesh = baked();
    assert_eq!(
        mesh.approx_path_start_moved(Some(2), 0),
        ApproxStep::MoveEnd { island: 2, status: PathApproxResultEnum::StartOutside }
    );
    assert_eq!(
        mesh.approx_path_start_moved(Some(1), OUTSIDE),
        ApproxStep::MoveEnd { island: 0, status: PathApproxResultEnum::StartOutside }
    );
}

#[test]
fn approx_start_moved_without_crossing() {
    let mesh = baked();
    assert_eq!(mesh.approx_path_start_moved(None, 1), ApproxStep::Direct(PathApproxResultEnum::BugCrashPrevention));
}

#[test]
fn approx_end_moved_into_start_polygon_keeps_status() {
    let mesh = baked();
    // The end moved into the start's own polygon: the straight path reports the request's status.
    assert_eq!(
        mesh.approx_path_end_moved(1, Some(1), PathApproxResultEnum::EndOutside),
        ApproxStep::Direct(PathApproxResultEnum::EndOutside)
    );
    assert_eq!(
        mesh.approx_path_end_moved(0, Some(0), PathApproxResultEnum::NoPath),
        ApproxStep::Direct(PathApproxResultEnum::NoPath)
    );
}

#[test]
fn approx_end_moved_searches_on_the_island() {
    let mesh = baked();
    assert_eq!(
        mesh.approx_path_end_moved(0, Some(1), PathApproxResultEnum::NoPath),
        ApproxStep::Search { max_steps: 3000, status: PathApproxResultEnum::NoPath }
    );
}

#[test]
fn approx_end_moved_gives_up_off_the_island() {
    let mesh = baked();
    let bug = ApproxStep::Direct(PathApproxResultEnum::BugCrashPrevention);
    assert_eq!(mesh.approx_path_end_moved(0, None, PathApproxResultEnum::EndOutside), bug);
    assert_eq!(mesh.approx_path_end_moved(0, Some(2), PathApproxResultEnum::EndOutside), bug);
    assert_eq!(mesh.approx_path_end_moved(0, Some(OUTSIDE), PathApproxResultEnum::EndOutside), bug);
    assert_eq!(mesh.approx_path_end_moved(0, Some(9), PathApproxResultEnum::EndOutside), bug);
}

#[test]
fn approx_outcomes() {
    assert_eq!(
        MeshTopology::approx_path_outcome(PathApproxResultEnum::EndOutside, SearchOutcome::Found),
        (true, PathApproxResultEnum::EndOutside)
    );
    assert_eq!(
        MeshTopology::approx_path_outcome(PathApproxResultEnum::EndOutside, SearchOutcome::NotFound),
        (false, PathApproxResultEnum::NoPath)
    );
    assert_eq!(
        MeshTopology::approx_path_outcome(PathApproxResultEnum::ValidPath, SearchOutcome::Exhausted),
        (false, PathApproxResultEnum::InfinitePrevention)
    );
}

#[test]
fn end_correction_no_path_mode() {
    let mesh = baked();
    let mode = DifferentIslandMode::NoPath;
    assert_eq!(mesh.end_correction(mode, 0, OUTSIDE), EndCorrection::FixAnyIsland);
    assert_eq!(mesh.end_correction(mode, 0, 2), EndCorrection::DifferentIslands);
    assert_eq!(mesh.end_correction(mode, 0, 1), EndCorrection::Keep);
}

#[test]
fn end_correction_closest_mode() {
    let mesh = baked();
    let mode = DifferentIslandMode::ClosestOnStartIsland;
    assert_eq!(mesh.end_correction(mode, 2, OUTSIDE), EndCorrection::FixOnIsland(2));
    assert_eq!(mesh.end_correction(mode, 0, 2), EndCorrection::FixOnIsland(0));
    assert_eq!(mesh.end_correction(mode, 1, 0), EndCorrection::Keep);
}

#[test]
fn navigation_outcomes() {
    assert_eq!(
        MeshTopology::navigation_outcome(SearchOutcome::Found),
        (true, NavigationResultStatus::PathFound)
    );
    assert_eq!(
        MeshTopology::navigation_outcome(SearchOutcome::NotFound),
        (false, NavigationResultStatus::OutsideMesh)
    );
    assert_eq!(
        MeshTopology::navigation_outcome(SearchOutcome::Exhausted),
        (false, NavigationResultStatus::BugInfinitePrevention)
    );
}

#[test]
fn route_between_polygons() {
    let mesh = baked();
    assert_eq!(mesh.route_between(2, 2), Route::Direct);
    assert_eq!(mesh.route_between(0, 2), Route::Search { max_steps: 3000 });
}

#[test]
fn moved_end_is_reported_as_possibly_modified() {
    let mesh = baked();
    for (start, end) in [(0u32, OUTSIDE), (1, 2), (2, 0)] {
        match mesh.approx_path_first_step(start, end) {
            ApproxStep::MoveEnd { island, status } => {
                assert!(status.is_end_modified());
                assert_eq!(mesh.same_island(start, island as u32), Some(true));
                for moved in [start, island as u32] {
                    match mesh.approx_path_end_moved(start, Some(moved), status) {
                        ApproxStep::Direct(reported) | ApproxStep::Search { status: reported, .. } => {
                            assert_eq!(reported, status)
                        },
                        other => panic!("unexpected {:?}", other),
                    }
                }
            },
            other => panic!("unexpected {:?}", other),
        }
    }
}

#[test]
fn path_outcomes() {
    assert!(MeshTopology::path_outcome(SearchOutcome::Found));
    assert!(!MeshTopology::path_outcome(SearchOutcome::NotFound));
    assert!(!MeshTopology::path_outcome(SearchOutcome::Exhausted));
}

#[test]
fn approx_agrees_with_path_on_one_island() {
    let mesh = baked();
    assert_eq!(mesh.path_route(0, 1), Route::Search { max_steps: 3000 });
    assert_eq!(
        mesh.approx_path_first_step(0, 1),
        ApproxStep::Search { max_steps: 3000, status: PathApproxResultEnum::ValidPath }
    );
    assert_eq!(mesh.path_route(2, 2), Route::Direct);
    assert_eq!(mesh.approx_path_first_step(2, 2), ApproxStep::Direct(PathApproxResultEnum::ValidPath));
    for outcome in [SearchOutcome::Found, SearchOutcome::NotFound, SearchOutcome::Exhausted] {
        let (returns, _) = MeshTopology::approx_path_outcome(PathApproxResultEnum::ValidPath, outcome);
        assert_eq!(returns, MeshTopology::path_outcome(outcome));
    }
}
