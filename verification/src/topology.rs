use vstd::prelude::*;
use vstd::set_lib::*;

verus! {

/// A polygon of a navigation mesh, given by the indices of its vertices.
#[derive(Debug, Clone)]
pub struct Polygon {
    /// Indices of the vertices of the polygon, in order.
    pub vertices: Vec<u32>,
    /// Whether the polygon is a dead end: it has only one neighbouring polygon.
    pub is_one_way: bool,
}

impl Polygon {
    /// Create a polygon from the indices of its vertices.
    pub fn new(vertices: Vec<u32>, is_one_way: bool) -> (p: Polygon)
        ensures
            p.vertices@ == vertices@,
            p.is_one_way == is_one_way,
    {
        Polygon { vertices, is_one_way }
    }
}

/// The index structure of a navigation mesh: which vertices each polygon has, and which polygons
/// each vertex touches (`-1` standing for the outside of the mesh), together with the islands
/// (connected components) once they are baked.
#[derive(Debug, Clone)]
pub struct MeshTopology {
    /// For each vertex, the polygons around it; `-1` marks the outside of the mesh.
    pub vertex_polygons: Vec<Vec<isize>>,
    /// The polygons of the mesh.
    pub polygons: Vec<Polygon>,
    /// For each polygon, the island it belongs to, once baked by
    /// [`MeshTopology::bake_islands_detection`]. Reset it with [`MeshTopology::unbake`] after
    /// changing the topology.
    pub islands: Option<Vec<usize>>,
}

/// The positions of a label sequence that are still unlabelled.
pub open spec fn unlabelled(isl: Seq<usize>) -> Set<int> {
    Set::new(|i: int| 0 <= i < isl.len() && isl[i] == usize::MAX)
}

proof fn lemma_unlabelled_finite(isl: Seq<usize>)
    ensures
        unlabelled(isl).finite(),
{
    lemma_int_range(0, isl.len() as int);
    lemma_len_subset(unlabelled(isl), set_int_range(0, isl.len() as int));
}

proof fn lemma_unlabelled_update(isl: Seq<usize>, i: int, v: usize)
    requires
        0 <= i < isl.len(),
        isl[i] == usize::MAX,
        v != usize::MAX,
    ensures
        unlabelled(isl.update(i, v)).len() < unlabelled(isl).len(),
{
    lemma_unlabelled_finite(isl);
    assert(unlabelled(isl.update(i, v)) =~= unlabelled(isl).remove(i));
    assert(unlabelled(isl).contains(i));
}

impl MeshTopology {
    /// Number of polygons.
    pub open spec fn num_polygons(self) -> int {
        self.polygons.len() as int
    }

    /// The vertex at position `k` of polygon `p`.
    pub open spec fn corner(self, p: int, k: int) -> int {
        self.polygons[p].vertices[k] as int
    }

    /// Every index stored in the topology points at an existing vertex or polygon
    /// (or at the outside, `-1`, for the polygons around a vertex).
    pub open spec fn wf(self) -> bool {
        &&& forall|p: int, k: int|
            0 <= p < self.polygons.len() && 0 <= k < self.polygons[p].vertices.len() ==> #[trigger] self.corner(p, k)
                < self.vertex_polygons.len()
        &&& forall|v: int, m: int|
            0 <= v < self.vertex_polygons.len() && 0 <= m < self.vertex_polygons[v].len() ==> {
                let q = #[trigger] self.vertex_polygons[v][m];
                q == -1 || 0 <= q < self.polygons.len()
            }
    }

    /// Polygon `q` lies around one of the vertices of polygon `p`.
    pub open spec fn adjacent(self, p: int, q: int) -> bool {
        &&& 0 <= p < self.polygons.len()
        &&& 0 <= q < self.polygons.len()
        &&& exists|k: int, m: int|
            0 <= k < self.polygons[p].vertices.len() && 0 <= m < self.vertex_polygons[self.corner(
                p,
                k,
            )].len() && #[trigger] self.vertex_polygons[self.corner(p, k)][m] == q
    }

    /// Step `k` of the walk `w` goes between adjacent polygons.
    pub open spec fn step_ok(self, w: Seq<int>, k: int) -> bool {
        self.adjacent(w[k], w[k + 1])
    }

    /// `w` is a non-empty sequence of polygons, each adjacent to the next.
    pub open spec fn is_walk(self, w: Seq<int>) -> bool {
        &&& w.len() >= 1
        &&& 0 <= w[0] < self.polygons.len()
        &&& forall|k: int| 0 <= k < w.len() - 1 ==> #[trigger] self.step_ok(w, k)
    }

    /// Polygon `b` can be reached from polygon `a` by moving between adjacent polygons.
    pub open spec fn reaches(self, a: int, b: int) -> bool {
        exists|w: Seq<int>| #[trigger] self.is_walk(w) && w[0] == a && w.last() == b
    }

    /// Adjacency goes both ways, as it does in a mesh whose vertices list all the polygons
    /// around them.
    pub open spec fn symmetric(self) -> bool {
        forall|p: int, q: int| #[trigger] self.adjacent(p, q) ==> self.adjacent(q, p)
    }

    /// `label` is the least polygon from which polygon `i` can be reached.
    pub open spec fn is_island_root(self, i: int, label: int) -> bool {
        &&& 0 <= label < self.polygons.len()
        &&& self.reaches(label, i)
        &&& forall|s: int| 0 <= s < label ==> !#[trigger] self.reaches(s, i)
    }

    /// `isl` gives every polygon its island: the least polygon from which it can be reached.
    pub open spec fn islands_valid(self, isl: Seq<usize>) -> bool {
        &&& isl.len() == self.polygons.len()
        &&& forall|i: int| 0 <= i < isl.len() ==> #[trigger] self.is_island_root(i, isl[i] as int)
    }

    /// The baked islands, if any.
    pub open spec fn baked_islands(self) -> Option<Seq<usize>> {
        match self.islands {
            Some(v) => Some(v@),
            None => None,
        }
    }

    pub proof fn lemma_reaches_refl(self, a: int)
        requires
            0 <= a < self.polygons.len(),
        ensures
            self.reaches(a, a),
    {
        let w = seq![a];
        assert(self.is_walk(w));
    }

    pub proof fn lemma_reaches_step(self, a: int, b: int, c: int)
        requires
            self.reaches(a, b),
            self.adjacent(b, c),
        ensures
            self.reaches(a, c),
    {
        let w = choose|w: Seq<int>| #[trigger] self.is_walk(w) && w[0] == a && w.last() == b;
        let w2 = w.push(c);
        assert forall|k: int| 0 <= k < w2.len() - 1 implies #[trigger] self.step_ok(w2, k) by {
            if k < w.len() - 1 {
                assert(self.step_ok(w, k));
            }
        }
        assert(self.is_walk(w2));
    }

    pub proof fn lemma_reaches_trans(self, a: int, b: int, c: int)
        requires
            self.reaches(a, b),
            self.reaches(b, c),
        ensures
            self.reaches(a, c),
    {
        let w = choose|w: Seq<int>| #[trigger] self.is_walk(w) && w[0] == b && w.last() == c;
        self.lemma_walk_extend(a, w, w.len() as int);
    }

    /// Every prefix `w[..j]` of a walk starting where `a` reaches ends at a polygon `a` reaches.
    proof fn lemma_walk_extend(self, a: int, w: Seq<int>, j: int)
        requires
            self.reaches(a, w[0]),
            self.is_walk(w),
            1 <= j <= w.len(),
        ensures
            self.reaches(a, w[j - 1]),
        decreases j,
    {
        if j > 1 {
            self.lemma_walk_extend(a, w, j - 1);
            assert(self.step_ok(w, j - 2));
            self.lemma_reaches_step(a, w[j - 2], w[j - 1]);
        }
    }

    /// With symmetric adjacency, reachability goes both ways.
    pub proof fn lemma_reaches_symmetric(self, a: int, b: int)
        requires
            self.symmetric(),
            self.reaches(a, b),
        ensures
            self.reaches(b, a),
    {
        let w = choose|w: Seq<int>| #[trigger] self.is_walk(w) && w[0] == a && w.last() == b;
        self.lemma_walk_back(w, w.len() as int);
    }

    proof fn lemma_walk_back(self, w: Seq<int>, j: int)
        requires
            self.symmetric(),
            self.is_walk(w),
            1 <= j <= w.len(),
        ensures
            self.reaches(w[j - 1], w[0]),
        decreases j,
    {
        if j == 1 {
            self.lemma_reaches_refl(w[0]);
        } else {
            self.lemma_walk_back(w, j - 1);
            assert(self.step_ok(w, j - 2));
            assert(self.adjacent(w[j - 1], w[j - 2]));
            self.lemma_reaches_refl(w[j - 1]);
            self.lemma_reaches_step(w[j - 1], w[j - 1], w[j - 2]);
            self.lemma_reaches_trans(w[j - 1], w[j - 2], w[0]);
        }
    }

    /// If labelled polygons only have labelled neighbours, everything reachable from a labelled
    /// polygon is labelled.
    proof fn lemma_closed_labels(self, isl: Seq<usize>, a: int, b: int)
        requires
            isl.len() == self.polygons.len(),
            forall|x: int, y: int|
                0 <= x < isl.len() && isl[x] != usize::MAX && #[trigger] self.adjacent(x, y)
                    ==> isl[y] != usize::MAX,
            0 <= a < isl.len(),
            isl[a] != usize::MAX,
            self.reaches(a, b),
        ensures
            isl[b] != usize::MAX,
    {
        let w = choose|w: Seq<int>| #[trigger] self.is_walk(w) && w[0] == a && w.last() == b;
        self.lemma_closed_walk(isl, w, w.len() as int);
    }

    proof fn lemma_closed_walk(self, isl: Seq<usize>, w: Seq<int>, j: int)
        requires
            isl.len() == self.polygons.len(),
            forall|x: int, y: int|
                0 <= x < isl.len() && isl[x] != usize::MAX && #[trigger] self.adjacent(x, y)
                    ==> isl[y] != usize::MAX,
            self.is_walk(w),
            isl[w[0]] != usize::MAX,
            1 <= j <= w.len(),
        ensures
            0 <= w[j - 1] < isl.len(),
            isl[w[j - 1]] != usize::MAX,
        decreases j,
    {
        if j > 1 {
            self.lemma_closed_walk(isl, w, j - 1);
            assert(self.step_ok(w, j - 2));
        }
    }
}

impl MeshTopology {
    /// Create a topology from the polygons around each vertex and the vertices of each polygon.
    /// Nothing is baked.
    pub fn new(vertex_polygons: Vec<Vec<isize>>, polygons: Vec<Polygon>) -> (t: MeshTopology)
        ensures
            t.vertex_polygons@ == vertex_polygons@,
            t.polygons@ == polygons@,
            t.islands is None,
    {
        MeshTopology { vertex_polygons, polygons, islands: None }
    }

    /// Remove the baked islands. Call this after modifying the topology.
    pub fn unbake(&mut self)
        ensures
            final(self).vertex_polygons == old(self).vertex_polygons,
            final(self).polygons == old(self).polygons,
            final(self).islands is None,
    {
        self.islands = None;
    }

    /// Compute the islands of the mesh: every polygon is labelled with the least polygon index
    /// from which it can be reached, so that two polygons that can reach each other share their
    /// label. This speeds up bailing out when two points cannot be connected.
    pub fn bake_islands_detection(&mut self)
        requires
            old(self).wf(),
        ensures
            final(self).vertex_polygons == old(self).vertex_polygons,
            final(self).polygons == old(self).polygons,
            final(self).baked_islands() matches Some(isl) && old(self).islands_valid(isl),
    {
        let islands = self.compute_islands();
        self.islands = Some(islands);
    }

    fn compute_islands(&self) -> (islands: Vec<usize>)
        requires
            self.wf(),
        ensures
            self.islands_valid(islands@),
    {
        let n = self.polygons.len();
        let mut islands: Vec<usize> = Vec::new();
        while islands.len() < n
            invariant
                islands.len() <= n,
                forall|i: int| 0 <= i < islands.len() ==> islands@[i] == usize::MAX,
            decreases n - islands.len(),
        {
            islands.push(usize::MAX);
        }
        let mut r: usize = 0;
        while r < n
            invariant
                self.wf(),
                n == self.polygons.len(),
                islands.len() == n,
                r <= n,
                forall|i: int|
                    0 <= i < n ==> (#[trigger] islands@[i] == usize::MAX <==> forall|s: int|
                        0 <= s < r ==> !#[trigger] self.reaches(s, i)),
                forall|i: int|
                    0 <= i < n && #[trigger] islands@[i] != usize::MAX ==> islands@[i] < r
                        && self.is_island_root(i, islands@[i] as int),
                forall|x: int, y: int|
                    0 <= x < n && islands@[x] != usize::MAX && #[trigger] self.adjacent(x, y)
                        ==> islands@[y] != usize::MAX,
            decreases n - r,
        {
            if islands[r] == usize::MAX {
                let ghost before = islands@;
                self.flood(&mut islands, r);
                proof {
                    self.lemma_reaches_refl(r as int);
                    assert forall|i: int|
                        0 <= i < n implies (#[trigger] islands@[i] == usize::MAX <==> forall|s: int|
                        0 <= s < r + 1 ==> !#[trigger] self.reaches(s, i)) by {
                        if islands@[i] == usize::MAX {
                            assert(before[i] == usize::MAX);
                            if self.reaches(r as int, i) {
                                self.lemma_closed_labels(islands@, r as int, i);
                            }
                        } else if before[i] == usize::MAX {
                            assert(self.reaches(r as int, i));
                        }
                    }
                    assert forall|i: int|
                        0 <= i < n && #[trigger] islands@[i] != usize::MAX implies islands@[i] < r + 1
                        && self.is_island_root(i, islands@[i] as int) by {
                        if before[i] == usize::MAX {
                            assert forall|s: int| 0 <= s < islands@[i] implies !#[trigger] self.reaches(s, i) by {
                                assert(s < r);
                            }
                        }
                    }
                }
            } else {
                proof {
                    assert forall|i: int|
                        0 <= i < n implies (#[trigger] islands@[i] == usize::MAX <==> forall|s: int|
                        0 <= s < r + 1 ==> !#[trigger] self.reaches(s, i)) by {
                        if islands@[i] == usize::MAX && self.reaches(r as int, i) {
                            self.lemma_closed_labels(islands@, r as int, i);
                        }
                    }
                }
            }
            r += 1;
        }
        proof {
            assert forall|i: int| 0 <= i < islands.len() implies #[trigger] self.is_island_root(i, islands@[i] as int) by {
                self.lemma_reaches_refl(i);
                assert(islands@[i] != usize::MAX);
            }
        }
        islands
    }

    /// Label with `root` every unlabelled polygon reachable from `root`.
    fn flood(&self, islands: &mut Vec<usize>, root: usize)
        requires
            self.wf(),
            old(islands).len() == self.polygons.len(),
            root < old(islands).len(),
            old(islands)@[root as int] == usize::MAX,
            forall|x: int, y: int|
                0 <= x < old(islands).len() && old(islands)@[x] != usize::MAX && #[trigger] self.adjacent(x, y)
                    ==> old(islands)@[y] != usize::MAX,
        ensures
            final(islands).len() == old(islands).len(),
            forall|i: int|
                0 <= i < old(islands).len() && old(islands)@[i] != usize::MAX ==> #[trigger] final(islands)@[i]
                    == old(islands)@[i],
            forall|i: int|
                0 <= i < old(islands).len() && old(islands)@[i] == usize::MAX && #[trigger] final(islands)@[i]
                    != usize::MAX ==> final(islands)@[i] == root && self.reaches(root as int, i),
            final(islands)@[root as int] != usize::MAX,
            forall|x: int, y: int|
                0 <= x < final(islands).len() && final(islands)@[x] != usize::MAX && #[trigger] self.adjacent(x, y)
                    ==> final(islands)@[y] != usize::MAX,
    {
        let ghost start = islands@;
        let n = self.polygons.len();
        let mut to_visit: Vec<usize> = Vec::new();
        to_visit.push(root);
        proof {
            self.lemma_reaches_refl(root as int);
            assert(to_visit@[0] == root);
        }
        while to_visit.len() > 0
            invariant
                self.wf(),
                n == self.polygons.len(),
                islands.len() == n,
                start.len() == n,
                root < n,
                forall|i: int|
                    0 <= i < n && start[i] != usize::MAX ==> #[trigger] islands@[i] == start[i],
                forall|i: int|
                    0 <= i < n && start[i] == usize::MAX && #[trigger] islands@[i] != usize::MAX
                        ==> islands@[i] == root && self.reaches(root as int, i),
                forall|k: int|
                    0 <= k < to_visit.len() ==> #[trigger] to_visit@[k] < n && self.reaches(
                        root as int,
                        to_visit@[k] as int,
                    ),
                islands@[root as int] != usize::MAX || to_visit@.contains(root),
                forall|x: int, y: int|
                    0 <= x < n && islands@[x] != usize::MAX && #[trigger] self.adjacent(x, y)
                        ==> islands@[y] != usize::MAX || to_visit@.contains(y as usize),
            decreases unlabelled(islands@).len(), to_visit.len(),
        {
            let ghost stack_before = to_visit@;
            let ghost labels_before = islands@;
            let next = to_visit.pop().unwrap();
            proof {
                assert(stack_before == to_visit@.push(next));
                assert(stack_before[stack_before.len() - 1] == next);
                assert forall|y: usize| stack_before.contains(y) && y != next implies to_visit@.contains(y) by {
                    let k = choose|k: int| 0 <= k < stack_before.len() && stack_before[k] == y;
                    assert(to_visit@[k] == y);
                }
            }
            if islands[next] == usize::MAX {
                islands.set(next, root);
                proof {
                    lemma_unlabelled_update(labels_before, next as int, root);
                }
                let ghost mid_stack = to_visit@;
                let poly = &self.polygons[next];
                let mut k: usize = 0;
                while k < poly.vertices.len()
                    invariant
                        self.wf(),
                        n == self.polygons.len(),
                        next < n,
                        root < n,
                        poly == &self.polygons[next as int],
                        k <= poly.vertices.len(),
                        self.reaches(root as int, next as int),
                        to_visit.len() >= mid_stack.len(),
                        forall|j: int| 0 <= j < mid_stack.len() ==> #[trigger] to_visit@[j] == mid_stack[j],
                        forall|j: int|
                            0 <= j < to_visit.len() ==> #[trigger] to_visit@[j] < n && self.reaches(
                                root as int,
                                to_visit@[j] as int,
                            ),
                        forall|kk: int, m: int|
                            0 <= kk < k && 0 <= m < self.vertex_polygons[self.corner(next as int, kk)].len()
                                && #[trigger] self.vertex_polygons[self.corner(next as int, kk)][m] != -1
                                ==> to_visit@.contains(
                                self.vertex_polygons[self.corner(next as int, kk)][m] as usize,
                            ),
                    decreases poly.vertices.len() - k,
                {
                    let v = poly.vertices[k] as usize;
                    proof {
                        assert(self.corner(next as int, k as int) == v);
                    }
                    let neighbours = &self.vertex_polygons[v];
                    let mut m: usize = 0;
                    while m < neighbours.len()
                        invariant
                            self.wf(),
                            n == self.polygons.len(),
                            next < n,
                            root < n,
                            poly == &self.polygons[next as int],
                            k < poly.vertices.len(),
                            v == self.corner(next as int, k as int),
                            v < self.vertex_polygons.len(),
                            neighbours == &self.vertex_polygons[v as int],
                            m <= neighbours.len(),
                            self.reaches(root as int, next as int),
                            to_visit.len() >= mid_stack.len(),
                            forall|j: int| 0 <= j < mid_stack.len() ==> #[trigger] to_visit@[j] == mid_stack[j],
                            forall|j: int|
                                0 <= j < to_visit.len() ==> #[trigger] to_visit@[j] < n && self.reaches(
                                    root as int,
                                    to_visit@[j] as int,
                                ),
                            forall|kk: int, mm: int|
                                0 <= kk < k && 0 <= mm < self.vertex_polygons[self.corner(next as int, kk)].len()
                                    && #[trigger] self.vertex_polygons[self.corner(next as int, kk)][mm] != -1
                                    ==> to_visit@.contains(
                                    self.vertex_polygons[self.corner(next as int, kk)][mm] as usize,
                                ),
                            forall|mm: int|
                                0 <= mm < m && #[trigger] neighbours@[mm] != -1 ==> to_visit@.contains(
                                    neighbours@[mm] as usize,
                                ),
                        decreases neighbours.len() - m,
                    {
                        let q = neighbours[m];
                        if q != -1 {
                            let ghost prev = to_visit@;
                            proof {
                                assert(self.vertex_polygons[self.corner(next as int, k as int)][m as int] == q);
                                assert(self.adjacent(next as int, q as int));
                                self.lemma_reaches_step(root as int, next as int, q as int);
                            }
                            to_visit.push(q as usize);
                            proof {
                                assert(to_visit@[prev.len() as int] == q as usize);
                                assert forall|y: usize| prev.contains(y) implies to_visit@.contains(y) by {
                                    let j = choose|j: int| 0 <= j < prev.len() && prev[j] == y;
                                    assert(to_visit@[j] == y);
                                }
                            }
                        }
                        m += 1;
                    }
                    k += 1;
                }
                proof {
                    assert forall|x: int, y: int|
                        0 <= x < n && islands@[x] != usize::MAX && #[trigger] self.adjacent(x, y)
                            implies islands@[y] != usize::MAX || to_visit@.contains(y as usize) by {
                        if x == next as int {
                            let (kk, mm) = choose|kk: int, mm: int|
                                0 <= kk < self.polygons[x].vertices.len() && 0 <= mm < self.vertex_polygons[self.corner(
                                    x,
                                    kk,
                                )].len() && #[trigger] self.vertex_polygons[self.corner(x, kk)][mm] == y;
                            assert(self.vertex_polygons[self.corner(next as int, kk)][mm] != -1);
                        } else if labels_before[y] == usize::MAX && y != next as int {
                            assert(stack_before.contains(y as usize));
                            assert(mid_stack.contains(y as usize));
                            let j = choose|j: int| 0 <= j < mid_stack.len() && mid_stack[j] == y as usize;
                            assert(to_visit@[j] == y as usize);
                        }
                    }
                    if islands@[root as int] == usize::MAX {
                        assert(mid_stack.contains(root));
                        let j = choose|j: int| 0 <= j < mid_stack.len() && mid_stack[j] == root;
                        assert(to_visit@[j] == root);
                    }
                }
            } else {
                proof {
                    assert forall|x: int, y: int|
                        0 <= x < n && islands@[x] != usize::MAX && #[trigger] self.adjacent(x, y)
                            implies islands@[y] != usize::MAX || to_visit@.contains(y as usize) by {
                        if islands@[y] == usize::MAX {
                            assert(stack_before.contains(y as usize));
                        }
                    }
                }
            }
        }
    }

    /// Whether every stored index points at an existing vertex or polygon (or at the outside,
    /// `-1`, among the polygons around a vertex); islands can only be baked on such a topology.
    pub fn is_well_formed(&self) -> (r: bool)
        ensures
            r == self.wf(),
    {
        let nv = self.vertex_polygons.len();
        let np = self.polygons.len();
        let mut p: usize = 0;
        while p < np
            invariant
                np == self.polygons.len(),
                nv == self.vertex_polygons.len(),
                p <= np,
                forall|pp: int, k: int|
                    0 <= pp < p && 0 <= k < self.polygons[pp].vertices.len() ==> #[trigger] self.corner(pp, k)
                        < nv,
            decreases np - p,
        {
            let verts = &self.polygons[p].vertices;
            let mut k: usize = 0;
            while k < verts.len()
                invariant
                    np == self.polygons.len(),
                    nv == self.vertex_polygons.len(),
                    p < np,
                    verts == &self.polygons[p as int].vertices,
                    k <= verts.len(),
                    forall|pp: int, kk: int|
                        0 <= pp < p && 0 <= kk < self.polygons[pp].vertices.len() ==> #[trigger] self.corner(pp, kk)
                            < nv,
                    forall|kk: int| 0 <= kk < k ==> #[trigger] self.corner(p as int, kk) < nv,
                decreases verts.len() - k,
            {
                if verts[k] as usize >= nv {
                    proof {
                        assert(self.corner(p as int, k as int) >= nv);
                    }
                    return false;
                }
                k += 1;
            }
            p += 1;
        }
        let mut v: usize = 0;
        while v < nv
            invariant
                np == self.polygons.len(),
                nv == self.vertex_polygons.len(),
                v <= nv,
                forall|pp: int, k: int|
                    0 <= pp < np && 0 <= k < self.polygons[pp].vertices.len() ==> #[trigger] self.corner(pp, k)
                        < nv,
                forall|vv: int, m: int|
                    0 <= vv < v && 0 <= m < self.vertex_polygons[vv].len() ==> {
                        let q = #[trigger] self.vertex_polygons[vv][m];
                        q == -1 || 0 <= q < np
                    },
            decreases nv - v,
        {
            let around = &self.vertex_polygons[v];
            let mut m: usize = 0;
            while m < around.len()
                invariant
                    np == self.polygons.len(),
                    nv == self.vertex_polygons.len(),
                    v < nv,
                    around == &self.vertex_polygons[v as int],
                    m <= around.len(),
                    forall|vv: int, mm: int|
                        0 <= vv < v && 0 <= mm < self.vertex_polygons[vv].len() ==> {
                            let q = #[trigger] self.vertex_polygons[vv][mm];
                            q == -1 || 0 <= q < np
                        },
                    forall|mm: int|
                        0 <= mm < m ==> {
                            let q = #[trigger] self.vertex_polygons[v as int][mm];
                            q == -1 || 0 <= q < np
                        },
                decreases around.len() - m,
            {
                let q = around[m];
                if q != -1 && (q < 0 || q as usize >= np) {
                    proof {
                        assert(self.vertex_polygons[v as int][m as int] == q);
                    }
                    return false;
                }
                m += 1;
            }
            v += 1;
        }
        true
    }

    /// The island of polygon `polygon`, if islands are baked and the polygon exists.
    pub fn island_of(&self, polygon: usize) -> (r: Option<usize>)
        ensures
            r == (match self.baked_islands() {
                Some(isl) => if polygon < isl.len() {
                    Some(isl[polygon as int])
                } else {
                    None
                },
                None => None,
            }),
    {
        match &self.islands {
            Some(isl) => if polygon < isl.len() {
                Some(isl[polygon])
            } else {
                None
            },
            None => None,
        }
    }
}

/// The islands are determined by the topology alone: two valid island labellings of the same
/// topology are equal, so baking twice gives the same islands.
pub proof fn lemma_islands_unique(t: MeshTopology, a: Seq<usize>, b: Seq<usize>)
    requires
        t.islands_valid(a),
        t.islands_valid(b),
    ensures
        a == b,
{
    assert forall|i: int| 0 <= i < a.len() implies a[i] == b[i] by {
        assert(t.is_island_root(i, a[i] as int));
        assert(t.is_island_root(i, b[i] as int));
        if a[i] < b[i] {
            assert(!t.reaches(a[i] as int, i));
        } else if b[i] < a[i] {
            assert(!t.reaches(b[i] as int, i));
        }
    }
    assert(a =~= b);
}

/// Each island is named after one of its own polygons, which is labelled with its own index.
pub proof fn lemma_island_root_is_own_root(t: MeshTopology, isl: Seq<usize>, i: int)
    requires
        t.islands_valid(isl),
        0 <= i < isl.len(),
    ensures
        isl[isl[i] as int] == isl[i],
{
    let r = isl[i] as int;
    assert(t.is_island_root(i, r));
    assert(t.is_island_root(r, isl[r] as int));
    t.lemma_reaches_refl(r);
    if isl[r] < r {
        t.lemma_reaches_trans(isl[r] as int, r, i);
    }
}

/// On a mesh whose adjacency goes both ways, two polygons are on the same island exactly when
/// one can be reached from the other; in particular no path joins polygons of different islands.
pub proof fn lemma_same_island_iff_reachable(t: MeshTopology, isl: Seq<usize>, i: int, j: int)
    requires
        t.symmetric(),
        t.islands_valid(isl),
        0 <= i < isl.len(),
        0 <= j < isl.len(),
    ensures
        (isl[i] == isl[j]) <==> t.reaches(i, j),
{
    let li = isl[i] as int;
    let lj = isl[j] as int;
    assert(t.is_island_root(i, li));
    assert(t.is_island_root(j, lj));
    if t.reaches(i, j) {
        t.lemma_reaches_symmetric(i, j);
        t.lemma_reaches_trans(li, i, j);
        t.lemma_reaches_trans(lj, j, i);
        if li < lj {
            assert(!t.reaches(li, j));
        } else if lj < li {
            assert(!t.reaches(lj, i));
        }
    }
    if li == lj {
        t.lemma_reaches_symmetric(li, i);
        t.lemma_reaches_trans(i, li, j);
    }
}

} // verus!
