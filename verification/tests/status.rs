use polyanya::status::{NavigationResultStatus, PathApproxResultEnum, PathApproxResultStatus, PointStatus};

#[test]
fn end_modified_only_when_end_can_move() {
    assert!(!PathApproxResultEnum::ValidPath.is_end_modified());
    assert!(PathApproxResultEnum::NoPath.is_end_modified());
    assert!(PathApproxResultEnum::StartOutside.is_end_modified());
    assert!(!PathApproxResultEnum::BothOutside.is_end_modified());
    assert!(PathApproxResultEnum::EndOutside.is_end_modified());
    assert!(!PathApproxResultEnum::InfinitePrevention.is_end_modified());
    assert!(!PathApproxResultEnum::BugCrashPrevention.is_end_modified());
}

#[test]
fn approx_valid_situations() {
    assert!(PathApproxResultEnum::ValidPath.is_valid_situation());
    assert!(PathApproxResultEnum::NoPath.is_valid_situation());
    assert!(!PathApproxResultEnum::StartOutside.is_valid_situation());
    assert!(!PathApproxResultEnum::BothOutside.is_valid_situation());
    assert!(PathApproxResultEnum::EndOutside.is_valid_situation());
    assert!(!PathApproxResultEnum::InfinitePrevention.is_valid_situation());
    assert!(!PathApproxResultEnum::BugCrashPrevention.is_valid_situation());
}

#[test]
fn navigation_valid_situations() {
    assert!(NavigationResultStatus::PathFound.is_valid_situation());
    assert!(NavigationResultStatus::OutsideMesh.is_valid_situation());
    assert!(NavigationResultStatus::DifferentIslands.is_valid_situation());
    assert!(!NavigationResultStatus::BugInfinitePrevention.is_valid_situation());
    assert!(!NavigationResultStatus::BugFloatingPointInaccuracies.is_valid_situation());
}

#[test]
fn status_builders_replace_one_field() {
    let status = PathApproxResultStatus::new(
        PointStatus::Original((0, 0)),
        PointStatus::Original((5, 5)),
        NavigationResultStatus::PathFound,
    );
    let status = status.with_start(PointStatus::Modified { original: (0, 0), modified: (1, 1) });
    assert!(matches!(status.start, PointStatus::Modified { original: (0, 0), modified: (1, 1) }));
    assert!(matches!(status.end, PointStatus::Original((5, 5))));
    let status = status.with_end(PointStatus::Modified { original: (5, 5), modified: (4, 4) });
    assert!(matches!(status.end, PointStatus::Modified { original: (5, 5), modified: (4, 4) }));
    let status = status.with_status(NavigationResultStatus::DifferentIslands);
    assert_eq!(status.status, NavigationResultStatus::DifferentIslands);
    assert!(matches!(status.start, PointStatus::Modified { modified: (1, 1), .. }));
}
