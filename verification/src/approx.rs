use vstd::prelude::*;
use crate::status::{DifferentIslandMode, NavigationResultStatus, PathApproxResultEnum};
use crate::topology::MeshTopology;

verus! {

/// Polygon index that stands for "not in any polygon of the mesh".
pub const OUTSIDE: u32 = 0xffff_ffffu32;

/// Factor between the number of polygons and the number of steps a search may take before it is
/// given up.
pub const SEARCH_STEPS_PER_POLYGON: usize = 1000;

/// How a request between two located points continues.
#[derive(Debug, Copy, Clone, PartialEq, Eq, Structural)]
pub enum Route {
    /// No path can exist: a point is outside the mesh, or the points are on different islands.
    Unreachable,
    /// Both points are in the same polygon: the straight line joins them.
    Direct,
    /// Search for a path, giving up after `max_steps` steps.
    Search { max_steps: usize },
}

/// How a search for a path ended.
#[derive(Debug, Copy, Clone, PartialEq, Eq, Structural)]
pub enum SearchOutcome {
    /// A path was found.
    Found,
    /// The search ran out of nodes without reaching the target.
    NotFound,
    /// The step budget was used up.
    Exhausted,
}

/// What an approximate path request does next.
#[derive(Debug, Copy, Clone, PartialEq, Eq, Structural)]
pub enum ApproxStep {
    /// Return the straight path between the (possibly moved) points, with this status.
    Direct(PathApproxResultEnum),
    /// Move the start point onto the first point where the segment from the start to the end
    /// crosses a polygon edge, then continue with [`MeshTopology::approx_path_start_moved`].
    MoveStart,
    /// Move the end point to the point of island `island` closest to it, then continue with
    /// [`MeshTopology::approx_path_end_moved`] and `status`.
    MoveEnd { island: usize, status: PathApproxResultEnum },
    /// Search for a path for at most `max_steps` steps; report `status` if one is found.
    Search { max_steps: usize, status: PathApproxResultEnum },
}

impl ApproxStep {
    /// The status a step reports when it returns a path without moving a point again: the
    /// status of a straight path, or the status of a search that finds one.
    pub open spec fn reported(self) -> Option<PathApproxResultEnum> {
        match self {
            ApproxStep::Direct(status) => Some(status),
            ApproxStep::Search { status, .. } => Some(status),
            _ => None,
        }
    }
}

/// What a navigation request with correction settings does with its end point.
#[derive(Debug, Copy, Clone, PartialEq, Eq, Structural)]
pub enum EndCorrection {
    /// Keep the end point.
    Keep,
    /// Stop: the points are on different islands.
    DifferentIslands,
    /// Correct the end point with the end correction mode, considering the polygons of every
    /// island; then check its island with [`MeshTopology::same_island`].
    FixAnyIsland,
    /// Correct the end point with the end correction mode, considering only the polygons of
    /// this island.
    FixOnIsland(usize),
}

impl MeshTopology {
    /// Number of search steps allowed before a search is given up.
    pub open spec fn search_budget(self) -> int {
        self.polygons.len() * SEARCH_STEPS_PER_POLYGON
    }

    /// The island of polygon `p`, when islands are baked and the polygon has one.
    pub open spec fn island(self, p: int) -> Option<usize> {
        match self.baked_islands() {
            Some(isl) => if 0 <= p < isl.len() {
                Some(isl[p])
            } else {
                None
            },
            None => None,
        }
    }

    /// Both polygons have islands and they differ.
    pub open spec fn known_different_islands(self, a: int, b: int) -> bool {
        self.island(a) is Some && self.island(b) is Some && self.island(a) != self.island(b)
    }

    /// Route between two polygons known to be on the same island.
    pub open spec fn route_between_spec(self, start: u32, end: u32) -> Route {
        if start == end {
            Route::Direct
        } else {
            Route::Search { max_steps: self.search_budget() as usize }
        }
    }

    /// Route of a path request between the polygons of its two points.
    pub open spec fn path_route_spec(self, start: u32, end: u32) -> Route {
        if start == OUTSIDE || end == OUTSIDE || self.known_different_islands(start as int, end as int) {
            Route::Unreachable
        } else {
            self.route_between_spec(start, end)
        }
    }

    /// Whether polygons `a` and `b` are on the same island: `None` when islands are not baked or
    /// a polygon has no island.
    pub fn same_island(&self, a: u32, b: u32) -> (r: Option<bool>)
        ensures
            r == (match (self.island(a as int), self.island(b as int)) {
                (Some(x), Some(y)) => Some(x == y),
                _ => None,
            }),
    {
        match &self.islands {
            Some(isl) => {
                if (a as usize) < isl.len() && (b as usize) < isl.len() {
                    Some(isl[a as usize] == isl[b as usize])
                } else {
                    None
                }
            },
            None => None,
        }
    }

    /// Whether polygon `p` belongs to island `island` (false when islands are not baked or the
    /// polygon has none).
    pub fn in_island(&self, p: usize, island: usize) -> (r: bool)
        ensures
            r == (self.island(p as int) == Some(island)),
    {
        match &self.islands {
            Some(isl) => p < isl.len() && isl[p] == island,
            None => false,
        }
    }

    /// Route between two polygons on the same island: straight when they are the same polygon,
    /// otherwise a search bounded by [`SEARCH_STEPS_PER_POLYGON`] steps per polygon.
    pub fn route_between(&self, start: u32, end: u32) -> (r: Route)
        requires
            self.search_budget() <= usize::MAX,
        ensures
            r == self.route_between_spec(start, end),
    {
        if start == end {
            Route::Direct
        } else {
            Route::Search { max_steps: self.polygons.len() * SEARCH_STEPS_PER_POLYGON }
        }
    }

    /// Route of a path request, given the polygons containing its start and end point
    /// ([`OUTSIDE`] for a point outside the mesh): unreachable when a point is outside or the
    /// points are on different baked islands, straight within one polygon, otherwise a bounded
    /// search.
    pub fn path_route(&self, start: u32, end: u32) -> (r: Route)
        requires
            self.search_budget() <= usize::MAX,
        ensures
            r == self.path_route_spec(start, end),
    {
        if start == OUTSIDE || end == OUTSIDE {
            return Route::Unreachable;
        }
        let start_island = self.island_of(start as usize);
        let end_island = self.island_of(end as usize);
        if start_island.is_some() && end_island.is_some() && start_island != end_island {
            return Route::Unreachable;
        }
        self.route_between(start, end)
    }
}

impl MeshTopology {
    /// Straight within one polygon, otherwise a bounded search; either way reporting `status`.
    pub open spec fn approx_route_spec(self, start: u32, end: u32, status: PathApproxResultEnum) -> ApproxStep {
        if start == end {
            ApproxStep::Direct(status)
        } else {
            ApproxStep::Search { max_steps: self.search_budget() as usize, status }
        }
    }

    /// First step of an approximate path request, given the polygons containing its start and
    /// end point.
    pub open spec fn approx_first_step_spec(self, start: u32, end: u32) -> ApproxStep {
        if start == OUTSIDE && end == OUTSIDE {
            ApproxStep::Direct(PathApproxResultEnum::BothOutside)
        } else if start == OUTSIDE {
            ApproxStep::MoveStart
        } else if end == OUTSIDE {
            ApproxStep::MoveEnd { island: self.island(start as int).unwrap(), status: PathApproxResultEnum::EndOutside }
        } else if self.island(start as int) != self.island(end as int) {
            ApproxStep::MoveEnd { island: self.island(start as int).unwrap(), status: PathApproxResultEnum::NoPath }
        } else {
            self.approx_route_spec(start, end, PathApproxResultEnum::ValidPath)
        }
    }

    /// Next step once the start point has been moved onto the polygon `crossing` (`None` when
    /// the segment crosses no polygon edge): the end point stays where it is when it lies on the
    /// island of the moved start, and otherwise moves onto that island.
    pub open spec fn approx_start_moved_spec(self, crossing: Option<u32>, end: u32) -> ApproxStep {
        match crossing {
            None => ApproxStep::Direct(PathApproxResultEnum::BugCrashPrevention),
            Some(s) => if end != OUTSIDE && self.island(end as int) == self.island(s as int) {
                self.approx_route_spec(s, end, PathApproxResultEnum::StartOutside)
            } else {
                ApproxStep::MoveEnd { island: self.island(s as int).unwrap(), status: PathApproxResultEnum::StartOutside }
            },
        }
    }

    /// Next step once the end point has been moved onto the polygon `moved` (`None` when no
    /// point could be found): a moved end that is not on the island of the start is given up.
    pub open spec fn approx_end_moved_spec(self, start: u32, moved: Option<u32>, status: PathApproxResultEnum) -> ApproxStep {
        match moved {
            Some(e) => if e != OUTSIDE && self.island(e as int) is Some && self.island(e as int) == self.island(
                start as int,
            ) {
                self.approx_route_spec(start, e, status)
            } else {
                ApproxStep::Direct(PathApproxResultEnum::BugCrashPrevention)
            },
            None => ApproxStep::Direct(PathApproxResultEnum::BugCrashPrevention),
        }
    }

    /// Continue between two polygons: straight within one polygon, otherwise a bounded search;
    /// either way reporting `status`.
    pub fn approx_route(&self, start: u32, end: u32, status: PathApproxResultEnum) -> (r: ApproxStep)
        requires
            self.search_budget() <= usize::MAX,
        ensures
            r == self.approx_route_spec(start, end, status),
    {
        if start == end {
            ApproxStep::Direct(status)
        } else {
            ApproxStep::Search { max_steps: self.polygons.len() * SEARCH_STEPS_PER_POLYGON, status }
        }
    }

    /// First step of an approximate path request, given the polygons containing its start and
    /// end point ([`OUTSIDE`] for a point outside the mesh):
    /// - both outside: the straight path, [`PathApproxResultEnum::BothOutside`];
    /// - start outside: move the start onto the mesh ([`ApproxStep::MoveStart`]);
    /// - end outside: move the end to the closest point of the start's island,
    ///   [`PathApproxResultEnum::EndOutside`];
    /// - different islands: likewise, [`PathApproxResultEnum::NoPath`];
    /// - otherwise straight within one polygon, or a bounded search, as a valid path.
    pub fn approx_path_first_step(&self, start: u32, end: u32) -> (r: ApproxStep)
        requires
            self.search_budget() <= usize::MAX,
            start != OUTSIDE ==> self.island(start as int) is Some,
            start != OUTSIDE && end != OUTSIDE ==> self.island(end as int) is Some,
        ensures
            r == self.approx_first_step_spec(start, end),
    {
        if start == OUTSIDE {
            if end == OUTSIDE {
                return ApproxStep::Direct(PathApproxResultEnum::BothOutside);
            }
            return ApproxStep::MoveStart;
        }
        let start_island = self.island_of(start as usize).unwrap();
        if end == OUTSIDE {
            return ApproxStep::MoveEnd { island: start_island, status: PathApproxResultEnum::EndOutside };
        }
        let end_island = self.island_of(end as usize).unwrap();
        if start_island != end_island {
            return ApproxStep::MoveEnd { island: start_island, status: PathApproxResultEnum::NoPath };
        }
        self.approx_route(start, end, PathApproxResultEnum::ValidPath)
    }

    /// Continue a request whose start point was outside the mesh, once the start has been moved
    /// onto the first crossing of its segment with a polygon edge, located in polygon `crossing`
    /// (`None` when the segment crosses no edge: the straight path is returned with
    /// [`PathApproxResultEnum::BugCrashPrevention`]). The end point stays when it lies on the
    /// island of the moved start; otherwise it moves to the closest point of that island. Either
    /// way the request reports [`PathApproxResultEnum::StartOutside`].
    pub fn approx_path_start_moved(&self, crossing: Option<u32>, end: u32) -> (r: ApproxStep)
        requires
            self.search_budget() <= usize::MAX,
            crossing matches Some(s) ==> s != OUTSIDE && self.island(s as int) is Some,
        ensures
            r == self.approx_start_moved_spec(crossing, end),
    {
        match crossing {
            None => ApproxStep::Direct(PathApproxResultEnum::BugCrashPrevention),
            Some(s) => {
                let start_island = self.island_of(s as usize).unwrap();
                if end != OUTSIDE && self.island_of(end as usize) == Some(start_island) {
                    self.approx_route(s, end, PathApproxResultEnum::StartOutside)
                } else {
                    ApproxStep::MoveEnd { island: start_island, status: PathApproxResultEnum::StartOutside }
                }
            },
        }
    }

    /// Continue a request whose end point was moved onto the start's island, given the polygon
    /// `moved` that contains the moved end (`None` when no such point was found): straight within
    /// one polygon, otherwise a bounded search, reporting `status`. A moved end that is not on
    /// the start's island gives the straight path with
    /// [`PathApproxResultEnum::BugCrashPrevention`].
    pub fn approx_path_end_moved(&self, start: u32, moved: Option<u32>, status: PathApproxResultEnum) -> (r: ApproxStep)
        requires
            self.search_budget() <= usize::MAX,
        ensures
            r == self.approx_end_moved_spec(start, moved, status),
    {
        match moved {
            Some(e) => {
                let end_island = self.island_of(e as usize);
                if e != OUTSIDE && end_island.is_some() && end_island == self.island_of(start as usize) {
                    self.approx_route(start, e, status)
                } else {
                    ApproxStep::Direct(PathApproxResultEnum::BugCrashPrevention)
                }
            },
            None => ApproxStep::Direct(PathApproxResultEnum::BugCrashPrevention),
        }
    }

    /// Whether an approximate path request returns the path its search found (otherwise the
    /// straight path), and with which status.
    pub open spec fn approx_outcome_spec(status: PathApproxResultEnum, outcome: SearchOutcome) -> (
        bool,
        PathApproxResultEnum,
    ) {
        match outcome {
            SearchOutcome::Found => (true, status),
            SearchOutcome::NotFound => (false, PathApproxResultEnum::NoPath),
            SearchOutcome::Exhausted => (false, PathApproxResultEnum::InfinitePrevention),
        }
    }

    /// Result of an approximate path request once its search ended: whether the found path is
    /// returned (otherwise the straight path), and with which status.
    pub fn approx_path_outcome(status: PathApproxResultEnum, outcome: SearchOutcome) -> (r: (
        bool,
        PathApproxResultEnum,
    ))
        ensures
            r == Self::approx_outcome_spec(status, outcome),
    {
        match outcome {
            SearchOutcome::Found => (true, status),
            SearchOutcome::NotFound => (false, PathApproxResultEnum::NoPath),
            SearchOutcome::Exhausted => (false, PathApproxResultEnum::InfinitePrevention),
        }
    }

    /// Whether a path request returns a path once its search ended: only the path the search
    /// found; a search that runs out of nodes or of steps gives no path.
    pub fn path_outcome(outcome: SearchOutcome) -> (r: bool)
        ensures
            r == (outcome == SearchOutcome::Found),
    {
        match outcome {
            SearchOutcome::Found => true,
            SearchOutcome::NotFound => false,
            SearchOutcome::Exhausted => false,
        }
    }
}

impl MeshTopology {
    /// What a navigation request with correction settings does with its end point, given the
    /// polygons of its (possibly corrected) start point and of its end point.
    pub open spec fn end_correction_spec(self, mode: DifferentIslandMode, start: u32, end: u32) -> EndCorrection {
        let si = self.island(start as int).unwrap();
        if end == OUTSIDE {
            match mode {
                DifferentIslandMode::NoPath => EndCorrection::FixAnyIsland,
                DifferentIslandMode::ClosestOnStartIsland => EndCorrection::FixOnIsland(si),
            }
        } else if self.island(end as int) == self.island(start as int) {
            EndCorrection::Keep
        } else {
            match mode {
                DifferentIslandMode::NoPath => EndCorrection::DifferentIslands,
                DifferentIslandMode::ClosestOnStartIsland => EndCorrection::FixOnIsland(si),
            }
        }
    }

    /// What a navigation request with correction settings does with its end point, given the
    /// polygon of its (possibly corrected) start point and the polygon of its end point
    /// ([`OUTSIDE`] if none):
    /// - end outside: correct it, over every island when `mode` is
    ///   [`DifferentIslandMode::NoPath`], otherwise only over the start's island;
    /// - end on the start's island: keep it;
    /// - end on another island: stop with different islands when `mode` is
    ///   [`DifferentIslandMode::NoPath`], otherwise correct it over the start's island.
    pub fn end_correction(&self, mode: DifferentIslandMode, start: u32, end: u32) -> (r: EndCorrection)
        requires
            self.island(start as int) is Some,
            end != OUTSIDE ==> self.island(end as int) is Some,
        ensures
            r == self.end_correction_spec(mode, start, end),
            r == EndCorrection::DifferentIslands ==> mode == DifferentIslandMode::NoPath,
    {
        let si = self.island_of(start as usize).unwrap();
        if end == OUTSIDE {
            return match mode {
                DifferentIslandMode::NoPath => EndCorrection::FixAnyIsland,
                DifferentIslandMode::ClosestOnStartIsland => EndCorrection::FixOnIsland(si),
            };
        }
        if self.island_of(end as usize) == Some(si) {
            EndCorrection::Keep
        } else {
            match mode {
                DifferentIslandMode::NoPath => EndCorrection::DifferentIslands,
                DifferentIslandMode::ClosestOnStartIsland => EndCorrection::FixOnIsland(si),
            }
        }
    }

    /// Status of a navigation request with correction settings once its search ended, and
    /// whether the found path is returned (no path is returned otherwise).
    pub fn navigation_outcome(outcome: SearchOutcome) -> (r: (bool, NavigationResultStatus))
        ensures
            r.0 == (r.1 == NavigationResultStatus::PathFound),
            r == (match outcome {
                SearchOutcome::Found => (true, NavigationResultStatus::PathFound),
                SearchOutcome::NotFound => (false, NavigationResultStatus::OutsideMesh),
                SearchOutcome::Exhausted => (false, NavigationResultStatus::BugInfinitePrevention),
            }),
    {
        match outcome {
            SearchOutcome::Found => (true, NavigationResultStatus::PathFound),
            SearchOutcome::NotFound => (false, NavigationResultStatus::OutsideMesh),
            SearchOutcome::Exhausted => (false, NavigationResultStatus::BugInfinitePrevention),
        }
    }
}

/// With valid baked islands, every polygon has its island from the baked labelling.
proof fn lemma_island_of_valid(t: MeshTopology, isl: Seq<usize>, p: int)
    requires
        t.baked_islands() == Some(isl),
        t.islands_valid(isl),
        0 <= p < t.polygons.len(),
    ensures
        t.island(p) == Some(isl[p]),
{
}

/// On a mesh with adjacency both ways and valid baked islands, a path request between two
/// points inside the mesh is refused as unreachable exactly when no sequence of adjacent
/// polygons joins their polygons: the islands never turn away a request that could succeed.
pub proof fn lemma_path_route_refuses_only_unreachable(t: MeshTopology, start: u32, end: u32)
    requires
        t.symmetric(),
        t.baked_islands() is Some,
        t.islands_valid(t.baked_islands().unwrap()),
        start < t.polygons.len(),
        end < t.polygons.len(),
        start != OUTSIDE,
        end != OUTSIDE,
    ensures
        (t.path_route_spec(start, end) == Route::Unreachable) <==> !t.reaches(start as int, end as int),
{
    let isl = t.baked_islands().unwrap();
    lemma_island_of_valid(t, isl, start as int);
    lemma_island_of_valid(t, isl, end as int);
    crate::topology::lemma_same_island_iff_reachable(t, isl, start as int, end as int);
}

/// On a mesh with adjacency both ways and valid baked islands, an approximate path request
/// between two points inside the mesh moves its end and reports [`PathApproxResultEnum::NoPath`]
/// exactly when no path can join them, and otherwise goes on as a valid path.
pub proof fn lemma_no_path_means_unreachable(t: MeshTopology, start: u32, end: u32)
    requires
        t.symmetric(),
        t.baked_islands() is Some,
        t.islands_valid(t.baked_islands().unwrap()),
        start < t.polygons.len(),
        end < t.polygons.len(),
        start != OUTSIDE,
        end != OUTSIDE,
    ensures
        (t.approx_first_step_spec(start, end) matches ApproxStep::MoveEnd { status, .. } && status
            == PathApproxResultEnum::NoPath) <==> !t.reaches(start as int, end as int),
        t.reaches(start as int, end as int) ==> t.approx_first_step_spec(start, end) == t.approx_route_spec(
            start,
            end,
            PathApproxResultEnum::ValidPath,
        ),
{
    let isl = t.baked_islands().unwrap();
    lemma_island_of_valid(t, isl, start as int);
    lemma_island_of_valid(t, isl, end as int);
    crate::topology::lemma_same_island_iff_reachable(t, isl, start as int, end as int);
}

/// Between two points inside the mesh on one island, an approximate path request goes exactly
/// the way a path request goes: straight within one polygon, otherwise the same bounded search,
/// and it reports a valid path exactly when the path request returns a path. It then reports
/// [`PathApproxResultEnum::ValidPath`], [`PathApproxResultEnum::NoPath`] or
/// [`PathApproxResultEnum::InfinitePrevention`].
pub proof fn lemma_approx_path_agrees_with_path(t: MeshTopology, start: u32, end: u32, outcome: SearchOutcome)
    requires
        start != OUTSIDE,
        end != OUTSIDE,
        t.island(start as int) is Some,
        t.island(start as int) == t.island(end as int),
    ensures
        (t.approx_first_step_spec(start, end) == ApproxStep::Direct(PathApproxResultEnum::ValidPath)) <==> (
        t.path_route_spec(start, end) == Route::Direct),
        forall|n: usize|
            (#[trigger] t.approx_first_step_spec(start, end) == ApproxStep::Search {
                max_steps: n,
                status: PathApproxResultEnum::ValidPath,
            }) <==> (t.path_route_spec(start, end) == Route::Search { max_steps: n }),
        t.approx_first_step_spec(start, end) is Direct || t.approx_first_step_spec(start, end) is Search,
        t.approx_first_step_spec(start, end).reported() == Some(PathApproxResultEnum::ValidPath),
        MeshTopology::approx_outcome_spec(PathApproxResultEnum::ValidPath, outcome).0 == (outcome
            == SearchOutcome::Found),
        MeshTopology::approx_outcome_spec(PathApproxResultEnum::ValidPath, outcome).1 == PathApproxResultEnum::ValidPath
            <==> outcome == SearchOutcome::Found,
        ({
            let st = MeshTopology::approx_outcome_spec(PathApproxResultEnum::ValidPath, outcome).1;
            st is ValidPath || st is NoPath || st is InfinitePrevention
        }),
{
}

/// Whenever an approximate path request moves a point, the status it ends with on a returned
/// path says that the end may have been modified, unless it gives up with
/// [`PathApproxResultEnum::BugCrashPrevention`]: a moved request is never reported as a valid
/// path, not even when the moved points fall in one polygon.
pub proof fn lemma_moved_end_is_reported(
    t: MeshTopology,
    start: u32,
    end: u32,
    crossing: Option<u32>,
    moved: Option<u32>,
)
    ensures
        t.approx_first_step_spec(start, end) matches ApproxStep::MoveEnd { status, .. }
            ==> status.end_may_be_modified(),
        t.approx_start_moved_spec(crossing, end) matches ApproxStep::MoveEnd { status, .. } ==> status
            == PathApproxResultEnum::StartOutside,
        t.approx_start_moved_spec(crossing, end).reported() == Some(PathApproxResultEnum::StartOutside)
            || t.approx_start_moved_spec(crossing, end).reported() == Some(
            PathApproxResultEnum::BugCrashPrevention,
        ) || t.approx_start_moved_spec(crossing, end) is MoveEnd,
        forall|status: PathApproxResultEnum|
            status.end_may_be_modified() ==> {
                let r = #[trigger] t.approx_end_moved_spec(start, moved, status).reported();
                r == Some(status) || r == Some(PathApproxResultEnum::BugCrashPrevention)
            },
        forall|status: PathApproxResultEnum|
            #![trigger t.approx_end_moved_spec(start, moved, status)]
            (moved matches Some(e) && e != OUTSIDE && t.island(e as int) is Some && t.island(e as int) == t.island(
                start as int,
            )) ==> t.approx_end_moved_spec(start, moved, status).reported() == Some(status),
{
}

/// The island an approximate path request moves its end onto is the island of its start (of
/// the moved start, when the start was outside); on a mesh with adjacency both ways and valid
/// baked islands, every polygon of that island can be reached from the start.
pub proof fn lemma_end_moves_onto_start_island(t: MeshTopology, start: u32, end: u32, crossing: Option<u32>, p: int)
    requires
        start != OUTSIDE ==> t.island(start as int) is Some,
        crossing matches Some(s) ==> s != OUTSIDE && t.island(s as int) is Some,
    ensures
        t.approx_first_step_spec(start, end) matches ApproxStep::MoveEnd { island, .. } ==> t.island(
            start as int,
        ) == Some(island),
        crossing matches Some(s) ==> (t.approx_start_moved_spec(crossing, end) matches ApproxStep::MoveEnd {
            island,
            ..
        } ==> t.island(s as int) == Some(island)),
        (t.symmetric() && t.baked_islands() is Some && t.islands_valid(t.baked_islands().unwrap()) && start
            < t.polygons.len() && 0 <= p < t.polygons.len() && (t.approx_first_step_spec(start, end) matches ApproxStep::MoveEnd {
            island,
            ..
        } && t.island(p) == Some(island))) ==> t.reaches(start as int, p),
{
    if t.symmetric() && t.baked_islands() is Some && t.islands_valid(t.baked_islands().unwrap()) && start
        < t.polygons.len() && 0 <= p < t.polygons.len() {
        let isl = t.baked_islands().unwrap();
        lemma_island_of_valid(t, isl, start as int);
        lemma_island_of_valid(t, isl, p);
        crate::topology::lemma_same_island_iff_reachable(t, isl, start as int, p);
    }
}

/// On a mesh with adjacency both ways and valid baked islands, a request that goes on after its
/// end was moved goes on to a polygon that can be reached from its start.
pub proof fn lemma_moved_end_reachable(t: MeshTopology, start: u32, e: u32, status: PathApproxResultEnum)
    requires
        t.symmetric(),
        t.baked_islands() is Some,
        t.islands_valid(t.baked_islands().unwrap()),
        start < t.polygons.len(),
        t.approx_end_moved_spec(start, Some(e), status) != ApproxStep::Direct(
            PathApproxResultEnum::BugCrashPrevention,
        ),
    ensures
        t.reaches(start as int, e as int),
{
    let isl = t.baked_islands().unwrap();
    lemma_island_of_valid(t, isl, start as int);
    crate::topology::lemma_same_island_iff_reachable(t, isl, start as int, e as int);
}

/// On a mesh with adjacency both ways and valid baked islands, a navigation request stops with
/// different islands only for points that no path can join, and keeps an end point inside the
/// mesh exactly when a path can join it to the start.
pub proof fn lemma_different_islands_means_unreachable(
    t: MeshTopology,
    mode: DifferentIslandMode,
    start: u32,
    end: u32,
)
    requires
        t.symmetric(),
        t.baked_islands() is Some,
        t.islands_valid(t.baked_islands().unwrap()),
        start < t.polygons.len(),
        end < t.polygons.len(),
        start != OUTSIDE,
        end != OUTSIDE,
    ensures
        t.end_correction_spec(mode, start, end) == EndCorrection::DifferentIslands ==> !t.reaches(
            start as int,
            end as int,
        ),
        (t.end_correction_spec(mode, start, end) == EndCorrection::Keep) <==> t.reaches(start as int, end as int),
{
    let isl = t.baked_islands().unwrap();
    lemma_island_of_valid(t, isl, start as int);
    lemma_island_of_valid(t, isl, end as int);
    crate::topology::lemma_same_island_iff_reachable(t, isl, start as int, end as int);
}

/// A search that finds a path keeps the request's status, so a request whose point was moved is
/// never reported as a valid path; a search that finds none returns no found path and reports
/// the same status whatever the request's status was, never a valid path, and tells a search
/// that ran out of nodes from one that ran out of steps.
pub proof fn lemma_approx_outcome_keeps_status(s1: PathApproxResultEnum, s2: PathApproxResultEnum, outcome: SearchOutcome)
    ensures
        MeshTopology::approx_outcome_spec(s1, SearchOutcome::Found) == (true, s1),
        MeshTopology::approx_outcome_spec(s1, outcome).0 <==> outcome == SearchOutcome::Found,
        outcome != SearchOutcome::Found ==> MeshTopology::approx_outcome_spec(s1, outcome)
            == MeshTopology::approx_outcome_spec(s2, outcome),
        outcome != SearchOutcome::Found ==> MeshTopology::approx_outcome_spec(s1, outcome).1
            != PathApproxResultEnum::ValidPath,
        s1.end_may_be_modified() ==> MeshTopology::approx_outcome_spec(s1, outcome).1
            != PathApproxResultEnum::ValidPath,
        MeshTopology::approx_outcome_spec(s1, SearchOutcome::NotFound).1 != MeshTopology::approx_outcome_spec(
            s1,
            SearchOutcome::Exhausted,
        ).1,
{
}

/// A navigation request with correction settings corrects its end point only onto the island
/// of its start polygon, and only when asked to look for the closest point on the start's
/// island and the end is outside the mesh or on another island; every polygon of that island can
/// then be reached from the start. It corrects over every island exactly when the end is outside
/// and different islands give no path, keeps the end exactly when it lies on the start's island,
/// and stops with different islands exactly when the end lies on another island and the mode
/// asks for no path.
pub proof fn lemma_end_correction_targets_start_island(
    t: MeshTopology,
    mode: DifferentIslandMode,
    start: u32,
    end: u32,
    p: int,
)
    requires
        t.island(start as int) is Some,
        end != OUTSIDE ==> t.island(end as int) is Some,
    ensures
        t.end_correction_spec(mode, start, end) matches EndCorrection::FixOnIsland(i) ==> {
            &&& t.island(start as int) == Some(i)
            &&& mode == DifferentIslandMode::ClosestOnStartIsland
            &&& (end == OUTSIDE || t.island(end as int) != t.island(start as int))
        },
        (t.end_correction_spec(mode, start, end) == EndCorrection::FixAnyIsland) <==> (end == OUTSIDE && mode
            == DifferentIslandMode::NoPath),
        (t.end_correction_spec(mode, start, end) == EndCorrection::Keep) <==> (end != OUTSIDE && t.island(
            end as int,
        ) == t.island(start as int)),
        (t.end_correction_spec(mode, start, end) == EndCorrection::DifferentIslands) <==> (mode
            == DifferentIslandMode::NoPath && end != OUTSIDE && t.island(end as int) != t.island(start as int)),
        (t.symmetric() && t.baked_islands() is Some && t.islands_valid(t.baked_islands().unwrap()) && start
            < t.polygons.len() && 0 <= p < t.polygons.len() && t.end_correction_spec(mode, start, end)
            == EndCorrection::FixOnIsland(t.island(p).unwrap()) && t.island(p) is Some) ==> t.reaches(start as int, p),
{
    if t.symmetric() && t.baked_islands() is Some && t.islands_valid(t.baked_islands().unwrap()) && start
        < t.polygons.len() && 0 <= p < t.polygons.len() {
        let isl = t.baked_islands().unwrap();
        lemma_island_of_valid(t, isl, start as int);
        lemma_island_of_valid(t, isl, p);
        crate::topology::lemma_same_island_iff_reachable(t, isl, start as int, p);
    }
}

/// A path request with a point outside the mesh is refused, whether or not islands are baked;
/// between two points inside the mesh it is refused only when both polygons have baked islands
/// and these differ, so an unbaked mesh refuses none. It goes straight only within one polygon
/// inside the mesh, and otherwise searches between two distinct polygons for
/// [`SEARCH_STEPS_PER_POLYGON`] steps per polygon.
pub proof fn lemma_path_route_cases(t: MeshTopology, start: u32, end: u32)
    ensures
        (start == OUTSIDE || end == OUTSIDE) ==> t.path_route_spec(start, end) == Route::Unreachable,
        (start != OUTSIDE && end != OUTSIDE && t.path_route_spec(start, end) == Route::Unreachable) ==> (t.island(
            start as int,
        ) is Some && t.island(end as int) is Some && t.island(start as int) != t.island(end as int)),
        (start != OUTSIDE && end != OUTSIDE && t.baked_islands() is None) ==> t.path_route_spec(start, end)
            != Route::Unreachable,
        (t.path_route_spec(start, end) == Route::Direct) ==> (start == end && start != OUTSIDE),
        (start == end && start != OUTSIDE) ==> t.path_route_spec(start, end) == Route::Direct,
        t.path_route_spec(start, end) matches Route::Search { max_steps } ==> {
            &&& start != end
            &&& start != OUTSIDE
            &&& end != OUTSIDE
            &&& t.search_budget() <= usize::MAX ==> max_steps == t.polygons.len() * SEARCH_STEPS_PER_POLYGON
        },
        (t.route_between_spec(start, end) == Route::Direct) <==> start == end,
        t.route_between_spec(start, end) != Route::Unreachable,
{
}

/// The first step of an approximate path request: the straight path marked as both outside
/// exactly when both points are outside; moving the start exactly when only the start is
/// outside; moving the end onto the start's island exactly when the start is inside and the end
/// is outside or on another island (reported as end outside, or as no path, accordingly); and
/// otherwise a valid path, straight only within one polygon, else a search between two distinct
/// polygons for [`SEARCH_STEPS_PER_POLYGON`] steps per polygon.
pub proof fn lemma_approx_first_step_cases(t: MeshTopology, start: u32, end: u32)
    requires
        start != OUTSIDE ==> t.island(start as int) is Some,
        start != OUTSIDE && end != OUTSIDE ==> t.island(end as int) is Some,
    ensures
        (t.approx_first_step_spec(start, end) == ApproxStep::Direct(PathApproxResultEnum::BothOutside)) <==> (
        start == OUTSIDE && end == OUTSIDE),
        (t.approx_first_step_spec(start, end) == ApproxStep::MoveStart) <==> (start == OUTSIDE && end != OUTSIDE),
        (t.approx_first_step_spec(start, end) is MoveEnd) <==> (start != OUTSIDE && (end == OUTSIDE || t.island(
            end as int,
        ) != t.island(start as int))),
        t.approx_first_step_spec(start, end) matches ApproxStep::MoveEnd { island, status } ==> {
            &&& t.island(start as int) == Some(island)
            &&& (status == PathApproxResultEnum::EndOutside) <==> end == OUTSIDE
            &&& (status == PathApproxResultEnum::NoPath) <==> end != OUTSIDE
        },
        (t.approx_first_step_spec(start, end).reported() == Some(PathApproxResultEnum::ValidPath)) <==> (start
            != OUTSIDE && end != OUTSIDE && t.island(start as int) == t.island(end as int)),
        (start != OUTSIDE && t.approx_first_step_spec(start, end) is Direct) ==> start == end,
        t.approx_first_step_spec(start, end) matches ApproxStep::Search { max_steps, .. } ==> {
            &&& start != end
            &&& t.search_budget() <= usize::MAX ==> max_steps == t.polygons.len() * SEARCH_STEPS_PER_POLYGON
        },
{
}

/// Once the start was moved: without a crossing the request gives up with the straight path;
/// otherwise the end moves onto the island of the moved start exactly when it is outside or on
/// another island, and every other step reports [`PathApproxResultEnum::StartOutside`], straight
/// only when the moved start and the end share a polygon. Once the end was moved: the request
/// goes on, with its own status, exactly when the moved end lies on the start's island, straight
/// only when it lies in the start's polygon.
pub proof fn lemma_moved_points_cases(
    t: MeshTopology,
    crossing: Option<u32>,
    start: u32,
    end: u32,
    moved: Option<u32>,
    status: PathApproxResultEnum,
)
    requires
        crossing matches Some(s) ==> s != OUTSIDE && t.island(s as int) is Some,
        status != PathApproxResultEnum::BugCrashPrevention,
    ensures
        crossing is None ==> t.approx_start_moved_spec(crossing, end) == ApproxStep::Direct(
            PathApproxResultEnum::BugCrashPrevention,
        ),
        crossing matches Some(s) ==> {
            &&& (t.approx_start_moved_spec(crossing, end) is MoveEnd) <==> (end == OUTSIDE || t.island(end as int)
                != t.island(s as int))
            &&& !(t.approx_start_moved_spec(crossing, end) is MoveEnd) ==> t.approx_start_moved_spec(
                crossing,
                end,
            ).reported() == Some(PathApproxResultEnum::StartOutside)
            &&& (t.approx_start_moved_spec(crossing, end) is Direct) <==> (s == end)
        },
        (t.approx_end_moved_spec(start, moved, status).reported() == Some(status)) <==> (moved matches Some(e)
            && e != OUTSIDE && t.island(e as int) is Some && t.island(e as int) == t.island(start as int)),
        !(t.approx_end_moved_spec(start, moved, status) is MoveStart || t.approx_end_moved_spec(
            start,
            moved,
            status,
        ) is MoveEnd),
        moved matches Some(e) ==> ((t.approx_end_moved_spec(start, moved, status) == ApproxStep::Direct(status))
            <==> (e == start && e != OUTSIDE && t.island(e as int) is Some)),
{
}

} // verus!
