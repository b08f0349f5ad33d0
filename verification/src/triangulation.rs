use vstd::prelude::*;
use crate::topology::{MeshTopology, Polygon};

verus! {

/// A triangle of a constrained Delaunay triangulation, as seen by the mesh builder: its face
/// index in the triangulation, the indices of its vertices, and whether it lies inside the area
/// to be meshed.
#[derive(Debug, Clone)]
pub struct TriangleFace {
    /// Index of the face in the triangulation (among all its faces, the outer one included).
    pub index: usize,
    /// Indices of the vertices of the face.
    pub vertices: Vec<u32>,
    /// Whether the face lies inside the meshed area and becomes a polygon.
    pub inside: bool,
}

/// Number of faces among the first `j` that lie inside the meshed area.
pub open spec fn inside_before(faces: Seq<TriangleFace>, j: int) -> nat
    decreases j,
{
    if j <= 0 {
        0
    } else if faces[j - 1].inside {
        inside_before(faces, j - 1) + 1
    } else {
        inside_before(faces, j - 1)
    }
}

/// The vertex lists of the faces that lie inside the meshed area, in order.
pub open spec fn inside_polygons(faces: Seq<TriangleFace>, j: int) -> Seq<Seq<u32>>
    decreases j,
{
    if j <= 0 {
        Seq::empty()
    } else if faces[j - 1].inside {
        inside_polygons(faces, j - 1).push(faces[j - 1].vertices@)
    } else {
        inside_polygons(faces, j - 1)
    }
}

/// For each face index of the triangulation, the polygon it became, `-1` for faces that did not
/// become polygons (after the first `j` faces were numbered).
pub open spec fn face_numbering(num_faces: nat, faces: Seq<TriangleFace>, j: int) -> Seq<isize>
    decreases j,
{
    if j <= 0 {
        Seq::new(num_faces, |f: int| -1isize)
    } else if faces[j - 1].inside && faces[j - 1].index < num_faces {
        face_numbering(num_faces, faces, j - 1).update(
            faces[j - 1].index as int,
            inside_before(faces, j - 1) as isize,
        )
    } else {
        face_numbering(num_faces, faces, j - 1)
    }
}

/// Number of leading entries that are the outside (`-1`).
pub open spec fn leading_outside(s: Seq<isize>) -> nat
    decreases s.len(),
{
    if s.len() > 0 && s[0] == -1 {
        1 + leading_outside(s.drop_first())
    } else {
        0
    }
}

/// `s` with consecutive repetitions collapsed to one entry.
pub open spec fn dedup(s: Seq<isize>) -> Seq<isize>
    decreases s.len(),
{
    if s.len() <= 1 {
        s
    } else if s[s.len() - 1] == s[s.len() - 2] {
        dedup(s.drop_last())
    } else {
        dedup(s.drop_last()).push(s.last())
    }
}

/// The polygons around a vertex, normalised: `[-1]` when the vertex touches no polygon;
/// otherwise the circular list rotated so that it starts with a polygon, with consecutive
/// repetitions collapsed.
pub open spec fn normalized_neighbours(s: Seq<isize>) -> Seq<isize> {
    if forall|k: int| 0 <= k < s.len() ==> s[k] == -1 {
        seq![-1isize]
    } else {
        let k = leading_outside(s) as int;
        dedup(s.skip(k) + s.take(k))
    }
}

proof fn lemma_leading_outside(s: Seq<isize>)
    ensures
        leading_outside(s) <= s.len(),
        forall|k: int| 0 <= k < leading_outside(s) ==> s[k] == -1,
        leading_outside(s) < s.len() ==> s[leading_outside(s) as int] != -1,
    decreases s.len(),
{
    if s.len() > 0 && s[0] == -1 {
        lemma_leading_outside(s.drop_first());
        assert forall|k: int| 0 <= k < leading_outside(s) implies s[k] == -1 by {
            if k > 0 {
                assert(s[k] == s.drop_first()[k - 1]);
            }
        }
    }
}

proof fn lemma_dedup_last(s: Seq<isize>)
    requires
        s.len() >= 1,
    ensures
        dedup(s).len() >= 1,
        dedup(s).last() == s.last(),
    decreases s.len(),
{
    if s.len() > 1 {
        lemma_dedup_last(s.drop_last());
    }
}

proof fn lemma_inside_before_bound(faces: Seq<TriangleFace>, j: int)
    ensures
        inside_before(faces, j) <= if j < 0 { 0 } else { j },
        inside_before(faces, j) == inside_polygons(faces, j).len(),
    decreases j,
{
    if j > 0 {
        lemma_inside_before_bound(faces, j - 1);
    }
}

proof fn lemma_face_numbering_len(num_faces: nat, faces: Seq<TriangleFace>, j: int)
    ensures
        face_numbering(num_faces, faces, j).len() == num_faces,
    decreases j,
{
    if j > 0 {
        lemma_face_numbering_len(num_faces, faces, j - 1);
    }
}

/// Normalise the list of polygons around a vertex: `[-1]` if the vertex touches no polygon,
/// otherwise rotate the circular list until it starts with a polygon and collapse consecutive
/// repetitions.
pub fn normalize_neighbours(around: &Vec<isize>) -> (r: Vec<isize>)
    ensures
        r@ == normalized_neighbours(around@),
{
    let n = around.len();
    let mut k: usize = 0;
    while k < n && around[k] == -1
        invariant
            n == around.len(),
            k <= n,
            forall|j: int| 0 <= j < k ==> around@[j] == -1,
        decreases n - k,
    {
        k += 1;
    }
    if k == n {
        return vec![-1];
    }
    proof {
        lemma_leading_outside(around@);
        if leading_outside(around@) < k {
            assert(around@[leading_outside(around@) as int] == -1);
        }
        if leading_outside(around@) > k {
            assert(around@[k as int] == -1);
        }
        assert(leading_outside(around@) == k);
        assert(!(forall|j: int| 0 <= j < around@.len() ==> around@[j] == -1));
    }
    let ghost rot = around@.skip(k as int) + around@.take(k as int);
    let mut r: Vec<isize> = Vec::new();
    let mut i: usize = 0;
    while i < n
        invariant
            n == around.len(),
            k < n,
            rot == around@.skip(k as int) + around@.take(k as int),
            rot.len() == n,
            i <= n,
            r@ == dedup(rot.take(i as int)),
        decreases n - i,
    {
        let x = if i < n - k {
            around[i + k]
        } else {
            around[i - (n - k)]
        };
        proof {
            assert(rot[i as int] == x);
            assert(rot.take(i + 1).drop_last() =~= rot.take(i as int));
            if i > 0 {
                lemma_dedup_last(rot.take(i as int));
            }
        }
        if i == 0 || r[r.len() - 1] != x {
            r.push(x);
        }
        i += 1;
    }
    proof {
        assert(rot.take(n as int) =~= rot);
    }
    r
}

/// Copy a list of vertex indices.
fn copy_indices(v: &Vec<u32>) -> (r: Vec<u32>)
    ensures
        r@ == v@,
{
    let mut r: Vec<u32> = Vec::new();
    let mut i: usize = 0;
    while i < v.len()
        invariant
            i <= v.len(),
            r@ == v@.take(i as int),
        decreases v.len() - i,
    {
        r.push(v[i]);
        proof {
            assert(v@.take(i + 1) =~= v@.take(i as int).push(v@[i as int]));
        }
        i += 1;
    }
    proof {
        assert(v@.take(v.len() as int) =~= v@);
    }
    r
}

/// Every entry is the outside (`-1`) or a polygon index below `n`.
pub open spec fn outside_or_below(s: Seq<isize>, n: int) -> bool {
    forall|k: int| 0 <= k < s.len() ==> s[k] == -1 || 0 <= #[trigger] s[k] < n
}

proof fn lemma_dedup_in_range(s: Seq<isize>, n: int)
    requires
        outside_or_below(s, n),
    ensures
        outside_or_below(dedup(s), n),
    decreases s.len(),
{
    if s.len() > 1 {
        assert(outside_or_below(s.drop_last(), n)) by {
            assert forall|k: int| 0 <= k < s.drop_last().len() implies s.drop_last()[k] == -1 || 0
                <= #[trigger] s.drop_last()[k] < n by {
                assert(s.drop_last()[k] == s[k]);
            }
        }
        lemma_dedup_in_range(s.drop_last(), n);
        let d = dedup(s.drop_last());
        if s[s.len() - 1] != s[s.len() - 2] {
            assert forall|k: int| 0 <= k < d.push(s.last()).len() implies d.push(s.last())[k] == -1 || 0
                <= #[trigger] d.push(s.last())[k] < n by {
                if k < d.len() {
                    assert(d.push(s.last())[k] == d[k]);
                }
            }
        }
    }
}

proof fn lemma_normalized_in_range(s: Seq<isize>, n: int)
    requires
        outside_or_below(s, n),
    ensures
        outside_or_below(normalized_neighbours(s), n),
{
    if !(forall|k: int| 0 <= k < s.len() ==> s[k] == -1) {
        lemma_leading_outside(s);
        let k = leading_outside(s) as int;
        let rot = s.skip(k) + s.take(k);
        assert forall|i: int| 0 <= i < rot.len() implies rot[i] == -1 || 0 <= #[trigger] rot[i] < n by {
            if i < s.len() - k {
                assert(rot[i] == s[i + k]);
            } else {
                assert(rot[i] == s[i - (s.len() - k)]);
            }
        }
        lemma_dedup_in_range(rot, n);
    }
}

/// Build the topology of a navigation mesh from a triangulation: the faces that lie inside the
/// meshed area become the polygons, numbered in order, and every vertex lists the polygons of
/// the faces around it (`-1` for faces that did not become polygons), normalised by
/// [`normalize_neighbours`]. The result is well formed, so its islands can be baked.
pub fn topology_from_triangulation(
    num_faces: usize,
    faces: &Vec<TriangleFace>,
    vertex_faces: &Vec<Vec<usize>>,
) -> (t: MeshTopology)
    requires
        faces.len() < isize::MAX,
        forall|j: int| 0 <= j < faces.len() && faces[j].inside ==> #[trigger] faces[j].index < num_faces,
        forall|v: int, m: int|
            0 <= v < vertex_faces.len() && 0 <= m < vertex_faces[v].len() ==> #[trigger] vertex_faces[v][m]
                < num_faces,
        forall|j: int, k: int|
            0 <= j < faces.len() && faces[j].inside && 0 <= k < faces[j].vertices.len()
                ==> #[trigger] faces[j].vertices[k] < vertex_faces.len(),
    ensures
        t.wf(),
        t.islands is None,
        t.polygons.len() == inside_before(faces@, faces.len() as int),
        forall|p: int|
            0 <= p < t.polygons.len() ==> #[trigger] t.polygons[p].vertices@ == inside_polygons(
                faces@,
                faces.len() as int,
            )[p] && !t.polygons[p].is_one_way,
        t.vertex_polygons.len() == vertex_faces.len(),
        forall|v: int|
            0 <= v < vertex_faces.len() ==> #[trigger] t.vertex_polygons[v]@ == normalized_neighbours(
                vertex_faces[v]@.map_values(
                    |f: usize| face_numbering(num_faces as nat, faces@, faces.len() as int)[f as int],
                ),
            ),
{
    let mut face_to_polygon: Vec<isize> = Vec::new();
    while face_to_polygon.len() < num_faces
        invariant
            face_to_polygon.len() <= num_faces,
            forall|f: int| 0 <= f < face_to_polygon.len() ==> face_to_polygon@[f] == -1,
        decreases num_faces - face_to_polygon.len(),
    {
        face_to_polygon.push(-1);
    }
    proof {
        assert(face_to_polygon@ =~= face_numbering(num_faces as nat, faces@, 0));
    }
    let mut polygons: Vec<Polygon> = Vec::new();
    let mut count: isize = 0;
    let mut j: usize = 0;
    while j < faces.len()
        invariant
            faces.len() < isize::MAX,
            j <= faces.len(),
            forall|jj: int| 0 <= jj < faces.len() && faces[jj].inside ==> #[trigger] faces[jj].index < num_faces,
            forall|jj: int, k: int|
                0 <= jj < faces.len() && faces[jj].inside && 0 <= k < faces[jj].vertices.len()
                    ==> #[trigger] faces[jj].vertices[k] < vertex_faces.len(),
            face_to_polygon@ == face_numbering(num_faces as nat, faces@, j as int),
            face_to_polygon.len() == num_faces,
            count == inside_before(faces@, j as int),
            count <= j,
            polygons.len() == count,
            outside_or_below(face_to_polygon@, count as int),
            forall|p: int|
                0 <= p < polygons.len() ==> #[trigger] polygons[p].vertices@ == inside_polygons(
                    faces@,
                    j as int,
                )[p] && !polygons[p].is_one_way,
            forall|p: int, k: int|
                0 <= p < polygons.len() && 0 <= k < polygons[p].vertices.len()
                    ==> #[trigger] polygons[p].vertices[k] < vertex_faces.len(),
        decreases faces.len() - j,
    {
        proof {
            lemma_inside_before_bound(faces@, j as int);
        }
        let face = &faces[j];
        if face.inside {
            face_to_polygon.set(face.index, count);
            let verts = copy_indices(&face.vertices);
            let ghost old_polys = polygons@;
            polygons.push(Polygon::new(verts, false));
            proof {
                assert forall|p: int|
                    0 <= p < polygons.len() implies #[trigger] polygons[p].vertices@ == inside_polygons(
                    faces@,
                    j + 1,
                )[p] && !polygons[p].is_one_way by {
                    if p < old_polys.len() {
                        assert(polygons[p] == old_polys[p]);
                    }
                }
                assert forall|p: int, k: int|
                    0 <= p < polygons.len() && 0 <= k < polygons[p].vertices.len()
                        implies #[trigger] polygons[p].vertices[k] < vertex_faces.len() by {
                    if p < old_polys.len() {
                        assert(polygons[p] == old_polys[p]);
                    } else {
                        assert(polygons[p].vertices@ == faces[j as int].vertices@);
                        assert(faces[j as int].vertices[k] < vertex_faces.len());
                    }
                }
            }
            count += 1;
        }
        j += 1;
    }
    let ghost numbering = face_numbering(num_faces as nat, faces@, faces.len() as int);
    let mut vertex_polygons: Vec<Vec<isize>> = Vec::new();
    let mut v: usize = 0;
    while v < vertex_faces.len()
        invariant
            v <= vertex_faces.len(),
            numbering == face_numbering(num_faces as nat, faces@, faces.len() as int),
            face_to_polygon@ == numbering,
            face_to_polygon.len() == num_faces,
            outside_or_below(face_to_polygon@, polygons.len() as int),
            forall|vv: int, m: int|
                0 <= vv < vertex_faces.len() && 0 <= m < vertex_faces[vv].len() ==> #[trigger] vertex_faces[vv][m]
                    < num_faces,
            vertex_polygons.len() == v,
            forall|vv: int|
                0 <= vv < v ==> #[trigger] vertex_polygons[vv]@ == normalized_neighbours(
                    vertex_faces[vv]@.map_values(|f: usize| numbering[f as int]),
                ),
            forall|vv: int| 0 <= vv < v ==> outside_or_below(#[trigger] vertex_polygons[vv]@, polygons.len() as int),
        decreases vertex_faces.len() - v,
    {
        let out_faces = &vertex_faces[v];
        let mut around: Vec<isize> = Vec::new();
        let mut m: usize = 0;
        while m < out_faces.len()
            invariant
                out_faces == &vertex_faces[v as int],
                v < vertex_faces.len(),
                m <= out_faces.len(),
                face_to_polygon@ == numbering,
                face_to_polygon.len() == num_faces,
                forall|mm: int| 0 <= mm < out_faces.len() ==> #[trigger] out_faces[mm] < num_faces,
                around@ == out_faces@.take(m as int).map_values(|f: usize| numbering[f as int]),
            decreases out_faces.len() - m,
        {
            around.push(face_to_polygon[out_faces[m]]);
            proof {
                assert(out_faces@.take(m + 1).map_values(|f: usize| numbering[f as int]) =~= out_faces@.take(
                    m as int,
                ).map_values(|f: usize| numbering[f as int]).push(numbering[out_faces[m as int] as int]));
            }
            m += 1;
        }
        proof {
            assert(out_faces@.take(out_faces.len() as int) =~= out_faces@);
            assert(outside_or_below(around@, polygons.len() as int)) by {
                assert forall|k: int| 0 <= k < around@.len() implies around@[k] == -1 || 0
                    <= #[trigger] around@[k] < polygons.len() by {
                    assert(around@[k] == face_to_polygon@[out_faces[k] as int]);
                }
            }
            lemma_normalized_in_range(around@, polygons.len() as int);
        }
        let normalized = normalize_neighbours(&around);
        vertex_polygons.push(normalized);
        v += 1;
    }
    let t = MeshTopology::new(vertex_polygons, polygons);
    proof {
        assert forall|p: int, k: int|
            0 <= p < t.polygons.len() && 0 <= k < t.polygons[p].vertices.len() implies #[trigger] t.corner(p, k)
                < t.vertex_polygons.len() by {
            assert(t.polygons[p].vertices[k] < vertex_faces.len());
        }
        assert forall|vv: int, m: int|
            0 <= vv < t.vertex_polygons.len() && 0 <= m < t.vertex_polygons[vv].len() implies {
                let q = #[trigger] t.vertex_polygons[vv][m];
                q == -1 || 0 <= q < t.polygons.len()
            } by {
            assert(outside_or_below(t.vertex_polygons[vv]@, t.polygons.len() as int));
            assert(t.vertex_polygons[vv]@[m] == t.vertex_polygons[vv][m]);
        }
    }
    t
}

/// No two consecutive entries are equal.
pub open spec fn no_repeats(s: Seq<isize>) -> bool {
    forall|k: int| 0 <= k < s.len() - 1 ==> #[trigger] s[k] != s[k + 1]
}

proof fn lemma_dedup_shape(s: Seq<isize>)
    requires
        s.len() >= 1,
    ensures
        dedup(s).len() >= 1,
        dedup(s)[0] == s[0],
        no_repeats(dedup(s)),
    decreases s.len(),
{
    if s.len() > 1 {
        lemma_dedup_shape(s.drop_last());
        lemma_dedup_last(s.drop_last());
        let d = dedup(s.drop_last());
        if s[s.len() - 1] != s[s.len() - 2] {
            let e = d.push(s.last());
            assert forall|k: int| 0 <= k < e.len() - 1 implies #[trigger] e[k] != e[k + 1] by {
                if k < d.len() - 1 {
                    assert(e[k] == d[k] && e[k + 1] == d[k + 1]);
                    assert(d[k] != d[k + 1]);
                }
            }
        }
    }
}

/// The normalised polygons around a vertex are never empty; they are `[-1]` or start with a
/// polygon; and no polygon (nor the outside) is listed twice in a row.
pub proof fn lemma_normalized_shape(s: Seq<isize>)
    ensures
        normalized_neighbours(s).len() >= 1,
        normalized_neighbours(s) == seq![-1isize] || normalized_neighbours(s)[0] != -1,
        no_repeats(normalized_neighbours(s)),
{
    if !(forall|k: int| 0 <= k < s.len() ==> s[k] == -1) {
        lemma_leading_outside(s);
        let k = leading_outside(s) as int;
        let rot = s.skip(k) + s.take(k);
        assert(rot[0] == s[k]);
        lemma_dedup_shape(rot);
    } else {
        let r = seq![-1isize];
        assert forall|k: int| 0 <= k < r.len() - 1 implies #[trigger] r[k] != r[k + 1] by {}
    }
}

proof fn lemma_dedup_contains(s: Seq<isize>, x: isize)
    ensures
        dedup(s).contains(x) <==> s.contains(x),
    decreases s.len(),
{
    if s.len() > 1 {
        let t = s.drop_last();
        lemma_dedup_contains(t, x);
        if s.contains(x) && !t.contains(x) {
            let i = choose|i: int| 0 <= i < s.len() && s[i] == x;
            if i < s.len() - 1 {
                assert(t[i] == x);
            }
            assert(x == s.last());
            if s[s.len() - 1] == s[s.len() - 2] {
                assert(t[s.len() - 2] == x);
            } else {
                assert(dedup(s) == dedup(t).push(s.last()));
                assert(dedup(s)[dedup(t).len() as int] == x);
            }
        }
        if t.contains(x) {
            let i = choose|i: int| 0 <= i < t.len() && t[i] == x;
            assert(s[i] == x);
            if s[s.len() - 1] != s[s.len() - 2] {
                let d = dedup(t);
                let j = choose|j: int| 0 <= j < d.len() && d[j] == x;
                assert(dedup(s)[j] == x);
            }
        }
        if dedup(s).contains(x) && s[s.len() - 1] != s[s.len() - 2] {
            let d = dedup(t);
            let j = choose|j: int| 0 <= j < dedup(s).len() && dedup(s)[j] == x;
            if j < d.len() {
                assert(d[j] == x);
            } else {
                assert(s[s.len() - 1] == x);
            }
        }
    }
}

/// Normalising the polygons around a vertex neither loses nor invents one: for a vertex with
/// faces around it, the normalised list holds exactly the entries (polygons, and the outside)
/// of the original list; a vertex without faces around it gets the outside alone.
pub proof fn lemma_normalized_same_entries(s: Seq<isize>, x: isize)
    ensures
        s.len() > 0 ==> (normalized_neighbours(s).contains(x) <==> s.contains(x)),
        s.len() == 0 ==> normalized_neighbours(s) == seq![-1isize],
{
    if s.len() > 0 {
        if forall|k: int| 0 <= k < s.len() ==> s[k] == -1 {
            assert(s[0] == -1);
            assert(seq![-1isize][0] == -1);
        } else {
            lemma_leading_outside(s);
            let k = leading_outside(s) as int;
            let rot = s.skip(k) + s.take(k);
            lemma_dedup_contains(rot, x);
            if s.contains(x) {
                let i = choose|i: int| 0 <= i < s.len() && s[i] == x;
                if i >= k {
                    assert(rot[i - k] == x);
                } else {
                    assert(rot[s.len() - k + i] == x);
                }
            }
            if rot.contains(x) {
                let j = choose|j: int| 0 <= j < rot.len() && rot[j] == x;
                if j < s.len() - k {
                    assert(s[j + k] == x);
                } else {
                    assert(s[j - (s.len() - k)] == x);
                }
            }
        }
    }
}

/// The inside faces have distinct indices within the triangulation's faces.
pub open spec fn distinct_inside_indices(num_faces: nat, faces: Seq<TriangleFace>) -> bool {
    &&& forall|j: int| 0 <= j < faces.len() && faces[j].inside ==> #[trigger] faces[j].index < num_faces
    &&& forall|i: int, j: int|
        0 <= i < j < faces.len() && faces[i].inside && faces[j].inside ==> #[trigger] faces[i].index
            != #[trigger] faces[j].index
}

proof fn lemma_inside_before_grows(faces: Seq<TriangleFace>, i: int, n: int)
    requires
        0 <= i < n,
        faces[i].inside,
    ensures
        inside_before(faces, i) < inside_before(faces, n),
    decreases n,
{
    if n - 1 > i {
        lemma_inside_before_grows(faces, i, n - 1);
    }
}

proof fn lemma_inside_polygons_at(faces: Seq<TriangleFace>, i: int, n: int)
    requires
        0 <= i < n,
        faces[i].inside,
    ensures
        inside_polygons(faces, n).len() == inside_before(faces, n),
        inside_polygons(faces, n)[inside_before(faces, i) as int] == faces[i].vertices@,
    decreases n,
{
    lemma_inside_before_bound(faces, n);
    if n - 1 > i {
        lemma_inside_polygons_at(faces, i, n - 1);
        lemma_inside_before_grows(faces, i, n - 1);
    } else {
        lemma_inside_before_bound(faces, i);
    }
}

proof fn lemma_face_numbering_at(num_faces: nat, faces: Seq<TriangleFace>, n: int, f: int)
    requires
        distinct_inside_indices(num_faces, faces),
        0 <= n <= faces.len(),
        faces.len() < isize::MAX,
        0 <= f < num_faces,
    ensures
        face_numbering(num_faces, faces, n).len() == num_faces,
        forall|i: int| 0 <= i < n && faces[i].inside && faces[i].index == f ==> face_numbering(num_faces, faces, n)[f]
            == inside_before(faces, i),
        (forall|i: int| 0 <= i < n && faces[i].inside ==> faces[i].index != f) ==> face_numbering(num_faces, faces, n)[f]
            == -1,
    decreases n,
{
    if n > 0 {
        lemma_face_numbering_at(num_faces, faces, n - 1, f);
        assert forall|i: int| 0 <= i < n && faces[i].inside && faces[i].index == f implies face_numbering(
            num_faces,
            faces,
            n,
        )[f] == inside_before(faces, i) by {
            let prev = face_numbering(num_faces, faces, n - 1);
            lemma_inside_before_bound(faces, n - 1);
            lemma_inside_before_bound(faces, i);
            assert(prev.len() == num_faces);
            if i < n - 1 {
                assert(prev[f] == inside_before(faces, i));
                if faces[n - 1].inside {
                    assert(faces[i].index != faces[n - 1].index);
                    assert(face_numbering(num_faces, faces, n) == prev.update(
                        faces[n - 1].index as int,
                        inside_before(faces, n - 1) as isize,
                    ));
                }
            } else {
                assert(face_numbering(num_faces, faces, n) == prev.update(f, inside_before(faces, n - 1) as isize));
            }
        }
    }
}

/// Building a mesh from a triangulation whose inside faces have distinct indices: the polygon
/// that every vertex lists for an inside face is a polygon of the mesh with exactly that face's
/// vertices, inside faces become distinct polygons, and a face that did not become a polygon is
/// listed as the outside.
pub proof fn lemma_faces_become_their_polygons(num_faces: nat, faces: Seq<TriangleFace>, f: int)
    requires
        distinct_inside_indices(num_faces, faces),
        faces.len() < isize::MAX,
        0 <= f < num_faces,
    ensures
        forall|j: int|
            0 <= j < faces.len() && faces[j].inside && #[trigger] faces[j].index == f ==> {
                let p = face_numbering(num_faces, faces, faces.len() as int)[f];
                &&& 0 <= p < inside_polygons(faces, faces.len() as int).len()
                &&& inside_polygons(faces, faces.len() as int)[p as int] == faces[j].vertices@
            },
        forall|i: int, j: int|
            0 <= i < j < faces.len() && faces[i].inside && faces[j].inside ==> face_numbering(
                num_faces,
                faces,
                faces.len() as int,
            )[#[trigger] faces[i].index as int] != face_numbering(num_faces, faces, faces.len() as int)[
                #[trigger] faces[j].index as int],
        (forall|j: int| 0 <= j < faces.len() && faces[j].inside ==> faces[j].index != f) ==> face_numbering(
            num_faces,
            faces,
            faces.len() as int,
        )[f] == -1,
{
    let n = faces.len() as int;
    lemma_face_numbering_at(num_faces, faces, n, f);
    assert forall|j: int|
        0 <= j < faces.len() && faces[j].inside && #[trigger] faces[j].index == f implies {
        let p = face_numbering(num_faces, faces, n)[f];
        &&& 0 <= p < inside_polygons(faces, n).len()
        &&& inside_polygons(faces, n)[p as int] == faces[j].vertices@
    } by {
        lemma_inside_polygons_at(faces, j, n);
        lemma_inside_before_grows(faces, j, n);
        lemma_inside_before_bound(faces, n);
    }
    assert forall|i: int, j: int|
        0 <= i < j < faces.len() && faces[i].inside && faces[j].inside implies face_numbering(num_faces, faces, n)[
        #[trigger] faces[i].index as int] != face_numbering(num_faces, faces, n)[#[trigger] faces[j].index as int] by {
        lemma_face_numbering_at(num_faces, faces, n, faces[i].index as int);
        lemma_face_numbering_at(num_faces, faces, n, faces[j].index as int);
        lemma_inside_before_grows(faces, i, j);
        lemma_inside_before_bound(faces, n);
        lemma_inside_before_grows(faces, j, n);
    }
}

} // verus!
