use vstd::prelude::*;

verus! {

/// Outcome of [`approx_path`](crate::approx) style requests on a mesh.
#[derive(Debug, Copy, Clone, PartialEq, Eq, Structural)]
pub enum PathApproxResultEnum {
    /// The start- and end-point are within the same mesh islands and a path was found.
    ValidPath,
    /// The start- and end-points are within different mesh islands.
    /// There cannot exist a valid path between the two points.
    /// A path with a modified end-point was given that is closest to the requested end-point that is
    /// within the same mesh island as the start point.
    NoPath,
    /// The end-point was inside the mesh, but the start-point was outside the mesh.
    /// The end-point might be modified so that the agent can get to the closest point to the
    /// requested end-point within the same mesh island as the point where the line between start-
    /// and end-point enters the mesh.
    StartOutside,
    /// The start- and end-point were outside the mesh.
    /// A direct path that ignores the mesh-bounds is given.
    BothOutside,
    /// The start-point was inside the mesh, but the end-point was outside the mesh.
    /// The end-point was modified such that the agent can get to the closest point to the requested
    /// end-point within the same mesh island that the start-point is in.
    EndOutside,
    /// The start- and end-point are within the same mesh islands, but a path could not be found
    /// and deadlock prevention kicked in. A direct path that ignores the mesh-bounds is given.
    InfinitePrevention,
    /// The pathfinding could not handle the request; instead of crashing the application, this
    /// result was returned. A direct path that ignores the mesh-bounds is given.
    BugCrashPrevention,
}

impl PathApproxResultEnum {
    /// The outcomes under which the end point of the request may have been replaced.
    pub open spec fn end_may_be_modified(self) -> bool {
        self is NoPath || self is StartOutside || self is EndOutside
    }

    /// The outcomes that are expected to occur on a valid mesh.
    pub open spec fn expected(self) -> bool {
        self is ValidPath || self is NoPath || self is EndOutside
    }

    /// True if the target might have been modified.
    pub fn is_end_modified(&self) -> (r: bool)
        ensures
            r == self.end_may_be_modified(),
    {
        match self {
            PathApproxResultEnum::ValidPath => false,
            PathApproxResultEnum::NoPath => true,
            PathApproxResultEnum::StartOutside => true,
            PathApproxResultEnum::BothOutside => false,
            PathApproxResultEnum::EndOutside => true,
            PathApproxResultEnum::InfinitePrevention => false,
            PathApproxResultEnum::BugCrashPrevention => false,
        }
    }

    /// True if the situation is expected to occur.
    pub fn is_valid_situation(&self) -> (r: bool)
        ensures
            r == self.expected(),
    {
        match self {
            PathApproxResultEnum::ValidPath => true,
            PathApproxResultEnum::NoPath => true,
            PathApproxResultEnum::StartOutside => false,
            PathApproxResultEnum::BothOutside => false,
            PathApproxResultEnum::EndOutside => true,
            PathApproxResultEnum::InfinitePrevention => false,
            PathApproxResultEnum::BugCrashPrevention => false,
        }
    }
}

/// The mode given to the navigation algorithm to determine which kind of behaviour we expect when
/// the (possibly corrected) start point or (possibly corrected) end point are on different islands.
#[derive(Debug, Copy, Clone, PartialEq, Eq, Structural)]
pub enum DifferentIslandMode {
    /// If the (possibly corrected) start point and the (possibly corrected) end point are on
    /// different islands, return no path.
    NoPath,
    /// If the (possibly corrected) start point and the (possibly corrected) end point are on
    /// different islands, change the end point to the closest point that is on the same island as
    /// the (possibly corrected) start point and adheres to the end point's correction mode.
    ///
    /// If no such end point can be found, return no path.
    ClosestOnStartIsland,
}

/// Outcome of a navigation request with explicit correction settings.
#[derive(Debug, Copy, Clone, PartialEq, Eq, Structural)]
pub enum NavigationResultStatus {
    /// The (possibly corrected) start point and (possibly corrected) end point are within the same
    /// mesh islands and a path was found.
    PathFound,
    /// The start- and/or end-points were not within the mesh and could not be rectified because of
    /// their correction mode. No path is given as a result.
    OutsideMesh,
    /// The (possibly corrected) start point and (possibly corrected) end point are on different
    /// mesh islands. If a path is returned and what path is returned depends on the given
    /// [`DifferentIslandMode`].
    DifferentIslands,
    /// The start- and end-point are within the same mesh islands, but a path could not be found and
    /// deadlock prevention kicked in. No path is given as a result.
    BugInfinitePrevention,
    /// The navigation algorithm could not handle the situation due to floating point
    /// inaccuracies. No path is given as a result.
    BugFloatingPointInaccuracies,
}

impl NavigationResultStatus {
    /// The outcomes that are expected to occur on a valid mesh.
    pub open spec fn expected(self) -> bool {
        !(self is BugInfinitePrevention || self is BugFloatingPointInaccuracies)
    }

    /// True if the situation is expected to occur.
    pub fn is_valid_situation(&self) -> (r: bool)
        ensures
            r == self.expected(),
    {
        match self {
            NavigationResultStatus::PathFound => true,
            NavigationResultStatus::OutsideMesh => true,
            NavigationResultStatus::DifferentIslands => true,
            NavigationResultStatus::BugInfinitePrevention => false,
            NavigationResultStatus::BugFloatingPointInaccuracies => false,
        }
    }
}

/// Whether a start or end point of a navigation request was modified, and if so to what.
/// `P` is the type of the points.
#[derive(Debug, Copy, Clone)]
pub enum PointStatus<P> {
    /// The point was not modified.
    Original(P),
    /// The point was modified according to the request's settings.
    Modified {
        /// The requested point, outside the mesh.
        original: P,
        /// The modified point, inside the mesh.
        modified: P,
    },
}

/// Status of a navigation request: what became of its start and end points, and how it ended.
#[derive(Debug, Copy, Clone)]
pub struct PathApproxResultStatus<P> {
    /// The start point.
    pub start: PointStatus<P>,
    /// How the request ended.
    pub status: NavigationResultStatus,
    /// The end point.
    pub end: PointStatus<P>,
}

impl<P> PathApproxResultStatus<P> {
    /// Constructor.
    pub fn new(start: PointStatus<P>, end: PointStatus<P>, status: NavigationResultStatus) -> (r: Self)
        ensures
            r == (PathApproxResultStatus { start, status, end }),
    {
        PathApproxResultStatus { start, status, end }
    }

    /// Builder-like setter for the status.
    pub fn with_status(self, status: NavigationResultStatus) -> (r: Self)
        ensures
            r == (PathApproxResultStatus { status, ..self }),
    {
        PathApproxResultStatus { start: self.start, status, end: self.end }
    }

    /// Builder-like setter for the start point.
    pub fn with_start(self, start: PointStatus<P>) -> (r: Self)
        ensures
            r == (PathApproxResultStatus { start, ..self }),
    {
        PathApproxResultStatus { start, status: self.status, end: self.end }
    }

    /// Builder-like setter for the end point.
    pub fn with_end(self, end: PointStatus<P>) -> (r: Self)
        ensures
            r == (PathApproxResultStatus { end, ..self }),
    {
        PathApproxResultStatus { start: self.start, status: self.status, end }
    }
}

} // verus!
