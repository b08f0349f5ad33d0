use vstd::prelude::*;

verus! {

/// Two coordinate keys stand for equal coordinates. `None` stands for a coordinate that equals
/// nothing, itself included (one with an undefined component).
pub open spec fn key_eq(a: Option<u64>, b: Option<u64>) -> bool {
    a is Some && a == b
}

/// Number of edges `(ring[j - 1], ring[j])` with `0 < j <= upto` that go from `a` to `b`.
pub open spec fn ring_edge_count(ring: Seq<Option<u64>>, a: Option<u64>, b: Option<u64>, upto: int) -> nat
    decreases upto,
{
    if upto <= 0 {
        0
    } else {
        ring_edge_count(ring, a, b, upto - 1) + if upto < ring.len() && key_eq(ring[upto - 1], a) && key_eq(
            ring[upto],
            b,
        ) {
            1nat
        } else {
            0nat
        }
    }
}

/// Number of edges going from `a` to `b` in the first `r` rings.
pub open spec fn edge_count(rings: Seq<Seq<Option<u64>>>, a: Option<u64>, b: Option<u64>, r: int) -> nat
    decreases r,
{
    if r <= 0 {
        0
    } else {
        edge_count(rings, a, b, r - 1) + ring_edge_count(rings[r - 1], a, b, rings[r - 1].len() as int)
    }
}

/// Number of edges of all rings going from `a` to `b`.
pub open spec fn total_edge_count(rings: Seq<Seq<Option<u64>>>, a: Option<u64>, b: Option<u64>) -> nat {
    edge_count(rings, a, b, rings.len() as int)
}

/// The boundary strings (as positions in `exterior`) built from the first `i` steps
/// `exterior[k] -> exterior[k + 1]`: a step that is an edge of exactly one ring extends the
/// current string, a step that is an edge of no ring starts a new one; `None` once a step is an
/// edge of two rings or more.
pub open spec fn open_bounds(exterior: Seq<Option<u64>>, rings: Seq<Seq<Option<u64>>>, i: int) -> Option<
    Seq<Seq<usize>>,
>
    decreases i,
{
    if i <= 0 {
        Some(Seq::empty())
    } else {
        match open_bounds(exterior, rings, i - 1) {
            None => None,
            Some(bs) => {
                let c = total_edge_count(rings, exterior[i - 1], exterior[i]);
                if c > 1 {
                    None
                } else if c == 1 {
                    if bs.len() == 0 {
                        Some(seq![seq![(i - 1) as usize, i as usize]])
                    } else if bs.last().len() == 0 {
                        Some(bs.update(bs.len() - 1, seq![(i - 1) as usize, i as usize]))
                    } else {
                        Some(bs.update(bs.len() - 1, bs.last().push(i as usize)))
                    }
                } else {
                    Some(bs.push(Seq::empty()))
                }
            },
        }
    }
}

/// A string closed the way line strings close: the first position is appended unless the
/// string is empty or already ends on a coordinate equal to its start.
pub open spec fn closed(exterior: Seq<Option<u64>>, b: Seq<usize>) -> Seq<usize> {
    if b.len() > 0 && !key_eq(exterior[b[0] as int], exterior[b.last() as int]) {
        b.push(b[0])
    } else {
        b
    }
}

/// Number of steps along the exterior coordinates.
pub open spec fn num_steps(exterior: Seq<Option<u64>>) -> int {
    if exterior.len() == 0 {
        0
    } else {
        exterior.len() - 1
    }
}

/// The closed boundary strings of a multi-polygon.
pub open spec fn bounds_spec(exterior: Seq<Option<u64>>, rings: Seq<Seq<Option<u64>>>) -> Option<Seq<Seq<usize>>> {
    match open_bounds(exterior, rings, num_steps(exterior)) {
        None => None,
        Some(bs) => Some(bs.map_values(|b: Seq<usize>| closed(exterior, b))),
    }
}

/// The views of a list of position lists.
pub open spec fn views(v: Seq<Vec<usize>>) -> Seq<Seq<usize>> {
    v.map_values(|x: Vec<usize>| x@)
}

fn same_key(a: Option<u64>, b: Option<u64>) -> (r: bool)
    ensures
        r == key_eq(a, b),
{
    match (a, b) {
        (Some(x), Some(y)) => x == y,
        _ => false,
    }
}

/// Number of ring edges going from `a` to `b`, counting no further than two.
fn count_edge(rings: &Vec<Vec<Option<u64>>>, a: Option<u64>, b: Option<u64>) -> (c: usize)
    ensures
        c == if total_edge_count(rings@.map_values(|r: Vec<Option<u64>>| r@), a, b) >= 2 {
            2
        } else {
            total_edge_count(rings@.map_values(|r: Vec<Option<u64>>| r@), a, b)
        },
{
    let ghost rs = rings@.map_values(|r: Vec<Option<u64>>| r@);
    let mut c: usize = 0;
    let mut r: usize = 0;
    while r < rings.len()
        invariant
            rs == rings@.map_values(|r: Vec<Option<u64>>| r@),
            r <= rings.len(),
            c == edge_count(rs, a, b, r as int),
            c <= 1,
        decreases rings.len() - r,
    {
        let ring = &rings[r];
        proof {
            assert(rs[r as int] == ring@);
        }
        let mut j: usize = 1;
        let ghost base = c;
        while j < ring.len()
            invariant
                rs == rings@.map_values(|r: Vec<Option<u64>>| r@),
                r < rings.len(),
                rs[r as int] == ring@,
                1 <= j <= ring.len() || (j == 1 && ring.len() == 0),
                base == edge_count(rs, a, b, r as int),
                c == base + ring_edge_count(ring@, a, b, j as int - 1),
                c <= 1,
            decreases ring.len() - j,
        {
            if same_key(ring[j - 1], a) && same_key(ring[j], b) {
                c += 1;
                if c == 2 {
                    proof {
                        lemma_edge_count_grows(rs, a, b, r as int + 1, rs.len() as int);
                        lemma_ring_count_grows(ring@, a, b, j as int, ring.len() as int);
                    }
                    return 2;
                }
            }
            j += 1;
        }
        proof {
            if ring.len() > 0 {
                lemma_ring_count_tail(ring@, a, b);
            }
        }
        r += 1;
    }
    c
}

proof fn lemma_ring_count_tail(ring: Seq<Option<u64>>, a: Option<u64>, b: Option<u64>)
    requires
        ring.len() > 0,
    ensures
        ring_edge_count(ring, a, b, ring.len() - 1) == ring_edge_count(ring, a, b, ring.len() as int),
{
}

proof fn lemma_ring_count_grows(ring: Seq<Option<u64>>, a: Option<u64>, b: Option<u64>, j: int, k: int)
    requires
        j <= k,
    ensures
        ring_edge_count(ring, a, b, j) <= ring_edge_count(ring, a, b, k),
    decreases k - j,
{
    if j < k {
        lemma_ring_count_grows(ring, a, b, j, k - 1);
    }
}

proof fn lemma_edge_count_grows(rings: Seq<Seq<Option<u64>>>, a: Option<u64>, b: Option<u64>, r: int, s: int)
    requires
        r <= s,
    ensures
        edge_count(rings, a, b, r) <= edge_count(rings, a, b, s),
    decreases s - r,
{
    if r < s {
        lemma_edge_count_grows(rings, a, b, r, s - 1);
    }
}

/// Separate the boundary of a multi-polygon into closed strings. `exterior` holds the keys of
/// the coordinates of the polygons' exterior rings, one ring after the other; `rings` holds the
/// keys of every ring (exterior and interior) of every polygon. Walking `exterior` step by step,
/// a step that is an edge of exactly one ring extends the current string, a step that is an edge
/// of no ring (such as the jump from one polygon to the next) starts a new one. The strings are
/// given as positions in `exterior`, then closed.
///
/// `None` when a step is an edge of two rings or more: the boundary cannot be separated.
pub fn bounds_as_line_strings(exterior: &Vec<Option<u64>>, rings: &Vec<Vec<Option<u64>>>) -> (r: Option<
    Vec<Vec<usize>>,
>)
    ensures
        match r {
            Some(bs) => bounds_spec(exterior@, rings@.map_values(|r: Vec<Option<u64>>| r@)) == Some(views(bs@)),
            None => bounds_spec(exterior@, rings@.map_values(|r: Vec<Option<u64>>| r@)) is None,
        },
{
    let ghost rs = rings@.map_values(|r: Vec<Option<u64>>| r@);
    let steps = if exterior.len() == 0 {
        0
    } else {
        exterior.len() - 1
    };
    let mut bounds: Vec<Vec<usize>> = Vec::new();
    let mut i: usize = 0;
    while i < steps
        invariant
            rs == rings@.map_values(|r: Vec<Option<u64>>| r@),
            steps == num_steps(exterior@),
            i <= steps,
            steps < exterior.len() || steps == 0,
            open_bounds(exterior@, rs, i as int) == Some(views(bounds@)),
        decreases steps - i,
    {
        let c = count_edge(rings, exterior[i], exterior[i + 1]);
        let ghost before = bounds@;
        if c > 1 {
            proof {
                lemma_open_bounds_none_stays(exterior@, rs, i as int + 1, steps as int);
            }
            return None;
        }
        if c == 1 {
            let mut pair: Vec<usize> = Vec::new();
            pair.push(i);
            pair.push(i + 1);
            if bounds.len() == 0 {
                bounds.push(pair);
                proof {
                    assert(pair@ =~= seq![i as usize, (i + 1) as usize]);
                    assert(views(bounds@) =~= seq![seq![i as usize, (i + 1) as usize]]);
                }
            } else {
                let mut last = bounds.pop().unwrap();
                if last.len() == 0 {
                    bounds.push(pair);
                    proof {
                        assert(pair@ =~= seq![i as usize, (i + 1) as usize]);
                        assert(views(bounds@) =~= views(before).update(before.len() - 1, seq![i as usize, (i + 1) as usize]));
                    }
                } else {
                    let ghost last_before = last@;
                    last.push(i + 1);
                    bounds.push(last);
                    proof {
                        assert(views(bounds@) =~= views(before).update(
                            before.len() - 1,
                            views(before).last().push((i + 1) as usize),
                        ));
                    }
                }
            }
        } else {
            bounds.push(Vec::new());
            proof {
                assert(views(bounds@) =~= views(before).push(Seq::empty()));
            }
        }
        i += 1;
    }
    proof {
        lemma_open_bounds_shape(exterior@, rs, steps as int);
    }
    let ghost open = views(bounds@);
    let mut result: Vec<Vec<usize>> = Vec::new();
    let mut k: usize = 0;
    while k < bounds.len()
        invariant
            k <= bounds.len(),
            open == views(bounds@),
            steps == num_steps(exterior@),
            open_bounds(exterior@, rs, steps as int) == Some(open),
            forall|j: int, m: int| 0 <= j < open.len() && 0 <= m < open[j].len() ==> #[trigger] open[j][m] <= steps,
            steps < exterior.len() || steps == 0,
            steps == 0 ==> open.len() == 0,
            forall|j: int| 0 <= j < open.len() ==> #[trigger] open[j].len() == 0 || open[j].len() >= 2,
            views(result@) == open.take(k as int).map_values(|b: Seq<usize>| closed(exterior@, b)),
        decreases bounds.len() - k,
    {
        let mut b = copy_positions(&bounds[k]);
        proof {
            assert(open[k as int] == b@);
        }
        if b.len() > 0 {
            let first = b[0];
            let last = b[b.len() - 1];
            proof {
                assert(open[k as int][0] <= steps);
                assert(open[k as int][b.len() - 1] <= steps);
            }
            if !same_key(exterior[first], exterior[last]) {
                b.push(first);
            }
        }
        let ghost prev = result@;
        result.push(b);
        proof {
            assert(b@ == closed(exterior@, open[k as int]));
            assert(views(result@) =~= views(prev).push(b@));
            assert(open.take(k + 1) =~= open.take(k as int).push(open[k as int]));
            assert(open.take(k + 1).map_values(|b: Seq<usize>| closed(exterior@, b)) =~= open.take(
                k as int,
            ).map_values(|b: Seq<usize>| closed(exterior@, b)).push(closed(exterior@, open[k as int])));
        }
        k += 1;
    }
    proof {
        assert(open.take(bounds.len() as int) =~= open);
    }
    Some(result)
}

fn copy_positions(v: &Vec<usize>) -> (r: Vec<usize>)
    ensures
        r@ == v@,
{
    let mut r: Vec<usize> = Vec::new();
    let mut i: usize = 0;
    while i < v.len()
        invariant
            i <= v.len(),
            r@ == v@.take(i as int),
        decreases v.len() - i,
    {
        r.push(v[i]);
        proof {
            assert(v@.take(i + 1) =~= v@.take(i as int).push(v@[i as int]));
        }
        i += 1;
    }
    proof {
        assert(v@.take(v.len() as int) =~= v@);
    }
    r
}

/// Step `m` of string `b` goes to the next position, along an edge of exactly one ring.
pub open spec fn single_edge_step(exterior: Seq<Option<u64>>, rings: Seq<Seq<Option<u64>>>, b: Seq<usize>, m: int) -> bool {
    &&& b[m + 1] == b[m] + 1
    &&& total_edge_count(rings, exterior[b[m] as int], exterior[b[m + 1] as int]) == 1
}

/// Every boundary string built so far is empty, or a run of at least two consecutive positions
/// (up to the current one) whose every step is an edge of exactly one ring.
pub proof fn lemma_open_bounds_shape(exterior: Seq<Option<u64>>, rings: Seq<Seq<Option<u64>>>, i: int)
    requires
        i <= usize::MAX,
        open_bounds(exterior, rings, i) is Some,
    ensures
        forall|j: int, m: int|
            0 <= j < open_bounds(exterior, rings, i).unwrap().len() && 0 <= m < open_bounds(
                exterior,
                rings,
                i,
            ).unwrap()[j].len() ==> #[trigger] open_bounds(exterior, rings, i).unwrap()[j][m] <= i,
        forall|j: int|
            0 <= j < open_bounds(exterior, rings, i).unwrap().len() ==> #[trigger] open_bounds(
                exterior,
                rings,
                i,
            ).unwrap()[j].len() == 0 || open_bounds(exterior, rings, i).unwrap()[j].len() >= 2,
        forall|j: int, m: int|
            0 <= j < open_bounds(exterior, rings, i).unwrap().len() && 0 <= m < open_bounds(
                exterior,
                rings,
                i,
            ).unwrap()[j].len() - 1 ==> #[trigger] single_edge_step(exterior, rings, open_bounds(exterior, rings, i).unwrap()[j], m),
        open_bounds(exterior, rings, i).unwrap().len() > 0 && open_bounds(exterior, rings, i).unwrap().last().len()
            > 0 ==> open_bounds(exterior, rings, i).unwrap().last().last() == i,
    decreases i,
{
    if i > 0 {
        lemma_open_bounds_shape(exterior, rings, i - 1);
        let bs = open_bounds(exterior, rings, i - 1).unwrap();
        let nb = open_bounds(exterior, rings, i).unwrap();
        let c = total_edge_count(rings, exterior[i - 1], exterior[i]);
        if c == 1 && bs.len() > 0 && bs.last().len() > 0 {
            let l = bs.last();
            assert forall|j: int, m: int|
                0 <= j < nb.len() && 0 <= m < nb[j].len() - 1 implies #[trigger] single_edge_step(exterior, rings, nb[j], m) by {
                if j == nb.len() - 1 {
                    if m < l.len() - 1 {
                        assert(nb[j][m] == l[m] && nb[j][m + 1] == l[m + 1]);
                        assert(single_edge_step(exterior, rings, bs[j], m));
                    } else {
                        assert(nb[j][m] == l[m]);
                        assert(l.last() == i - 1);
                        assert(nb[j][m + 1] == i);
                    }
                } else {
                    assert(nb[j] == bs[j]);
                    assert(single_edge_step(exterior, rings, bs[j], m));
                }
            }
            assert forall|j: int, m: int|
                0 <= j < nb.len() && 0 <= m < nb[j].len() implies #[trigger] nb[j][m] <= i by {
                if j == nb.len() - 1 && m < l.len() {
                    assert(nb[j][m] == l[m]);
                } else if j < nb.len() - 1 {
                    assert(nb[j] == bs[j]);
                }
            }
        } else if c == 1 && bs.len() > 0 {
            assert forall|j: int, m: int|
                0 <= j < nb.len() && 0 <= m < nb[j].len() implies #[trigger] nb[j][m] <= i by {
                if j < nb.len() - 1 {
                    assert(nb[j] == bs[j]);
                }
            }
            assert forall|j: int, m: int|
                0 <= j < nb.len() && 0 <= m < nb[j].len() - 1 implies #[trigger] single_edge_step(exterior, rings, nb[j], m) by {
                if j < nb.len() - 1 {
                    assert(nb[j] == bs[j]);
                    assert(single_edge_step(exterior, rings, bs[j], m));
                } else {
                    assert(nb[j] == seq![(i - 1) as usize, i as usize]);
                    assert(m == 0);
                }
            }
        } else if c == 0 {
            assert forall|j: int, m: int|
                0 <= j < nb.len() && 0 <= m < nb[j].len() implies #[trigger] nb[j][m] <= i by {
                if j < nb.len() - 1 {
                    assert(nb[j] == bs[j]);
                }
            }
            assert forall|j: int, m: int|
                0 <= j < nb.len() && 0 <= m < nb[j].len() - 1 implies #[trigger] single_edge_step(exterior, rings, nb[j], m) by {
                if j < nb.len() - 1 {
                    assert(nb[j] == bs[j]);
                    assert(single_edge_step(exterior, rings, bs[j], m));
                }
            }
        }
    }
}

/// Once a step cannot be separated, no later step can either.
proof fn lemma_open_bounds_none_stays(exterior: Seq<Option<u64>>, rings: Seq<Seq<Option<u64>>>, i: int, j: int)
    requires
        open_bounds(exterior, rings, i) is None,
        i <= j,
    ensures
        open_bounds(exterior, rings, j) is None,
    decreases j - i,
{
    if i < j {
        lemma_open_bounds_none_stays(exterior, rings, i, j - 1);
    }
}

/// Every separated boundary string is empty, or has at least three positions and ends on a
/// coordinate equal to its start (or on its start position itself).
pub proof fn lemma_bounds_closed(exterior: Seq<Option<u64>>, rings: Seq<Seq<Option<u64>>>)
    requires
        exterior.len() <= usize::MAX + 1,
        bounds_spec(exterior, rings) is Some,
    ensures
        forall|j: int|
            0 <= j < bounds_spec(exterior, rings).unwrap().len() ==> {
                let b = #[trigger] bounds_spec(exterior, rings).unwrap()[j];
                b.len() == 0 || (b.len() >= 2 && (b.last() == b[0] || key_eq(
                    exterior[b[0] as int],
                    exterior[b.last() as int],
                )))
            },
{
    lemma_open_bounds_shape(exterior, rings, num_steps(exterior));
    let bs = open_bounds(exterior, rings, num_steps(exterior)).unwrap();
    assert forall|j: int| 0 <= j < bs.len() implies {
        let b = #[trigger] bounds_spec(exterior, rings).unwrap()[j];
        b.len() == 0 || (b.len() >= 2 && (b.last() == b[0] || key_eq(exterior[b[0] as int], exterior[b.last() as int])))
    } by {
        assert(bounds_spec(exterior, rings).unwrap()[j] == closed(exterior, bs[j]));
    }
}

proof fn lemma_ring_count_push_prefix(ring: Seq<Option<u64>>, x: Option<u64>, a: Option<u64>, b: Option<u64>, k: int)
    requires
        k < ring.len(),
    ensures
        ring_edge_count(ring.push(x), a, b, k) == ring_edge_count(ring, a, b, k),
    decreases k,
{
    if k > 0 {
        lemma_ring_count_push_prefix(ring, x, a, b, k - 1);
    }
}

/// Counting the edges of a ring from `a` to `b`: a ring without points has none, and a point
/// appended to a ring adds exactly the edge from the ring's last point to it, when that edge goes
/// from `a` to `b`.
pub proof fn lemma_ring_edge_count_push(ring: Seq<Option<u64>>, x: Option<u64>, a: Option<u64>, b: Option<u64>)
    ensures
        ring_edge_count(Seq::empty(), a, b, 0) == 0,
        ring_edge_count(ring.push(x), a, b, ring.len() as int + 1) == ring_edge_count(ring, a, b, ring.len() as int) + if ring.len()
            > 0 && key_eq(ring.last(), a) && key_eq(x, b) {
            1nat
        } else {
            0nat
        },
{
    let p = ring.push(x);
    let n = ring.len() as int;
    assert(ring_edge_count(p, a, b, n + 1) == ring_edge_count(p, a, b, n));
    if n > 0 {
        lemma_ring_count_push_prefix(ring, x, a, b, n - 1);
        assert(ring_edge_count(ring, a, b, n) == ring_edge_count(ring, a, b, n - 1));
        assert(p[n - 1] == ring.last() && p[n] == x);
    }
}

proof fn lemma_edge_count_push_prefix(
    rings: Seq<Seq<Option<u64>>>,
    ring: Seq<Option<u64>>,
    a: Option<u64>,
    b: Option<u64>,
    k: int,
)
    requires
        k <= rings.len(),
    ensures
        edge_count(rings.push(ring), a, b, k) == edge_count(rings, a, b, k),
    decreases k,
{
    if k > 0 {
        lemma_edge_count_push_prefix(rings, ring, a, b, k - 1);
        assert(rings.push(ring)[k - 1] == rings[k - 1]);
    }
}

/// The edges from `a` to `b` are counted over every ring: no rings give none, a ring appended
/// to the rings adds exactly its own edges from `a` to `b`, and so no ring, wherever it stands,
/// has more such edges than all rings together.
pub proof fn lemma_total_edge_count_over_every_ring(
    rings: Seq<Seq<Option<u64>>>,
    ring: Seq<Option<u64>>,
    a: Option<u64>,
    b: Option<u64>,
)
    ensures
        total_edge_count(Seq::empty(), a, b) == 0,
        total_edge_count(rings.push(ring), a, b) == total_edge_count(rings, a, b) + ring_edge_count(
            ring,
            a,
            b,
            ring.len() as int,
        ),
        forall|r: int|
            0 <= r < rings.len() ==> ring_edge_count(#[trigger] rings[r], a, b, rings[r].len() as int)
                <= total_edge_count(rings, a, b),
{
    lemma_edge_count_push_prefix(rings, ring, a, b, rings.len() as int);
    assert(rings.push(ring)[rings.len() as int] == ring);
    assert forall|r: int| 0 <= r < rings.len() implies ring_edge_count(
        #[trigger] rings[r],
        a,
        b,
        rings[r].len() as int,
    ) <= total_edge_count(rings, a, b) by {
        lemma_edge_count_grows(rings, a, b, r + 1, rings.len() as int);
    }
}

/// Step `k` of the exterior, from position `k` to `k + 1`, is an edge of exactly one ring.
pub open spec fn single_ring_step(exterior: Seq<Option<u64>>, rings: Seq<Seq<Option<u64>>>, k: int) -> bool {
    total_edge_count(rings, exterior[k], exterior[k + 1]) == 1
}

/// String `b` walks step `k` of the exterior: it holds position `k` followed by `k + 1`.
pub open spec fn walks_step(b: Seq<usize>, k: int) -> bool {
    exists|m: int| 0 <= m < b.len() - 1 && #[trigger] b[m] == k && b[m + 1] == k + 1
}

proof fn lemma_open_bounds_cover(exterior: Seq<Option<u64>>, rings: Seq<Seq<Option<u64>>>, i: int)
    requires
        0 <= i <= usize::MAX,
        open_bounds(exterior, rings, i) is Some,
    ensures
        forall|k: int|
            0 <= k < i && #[trigger] single_ring_step(exterior, rings, k) ==> exists|j: int|
                0 <= j < open_bounds(exterior, rings, i).unwrap().len() && #[trigger] walks_step(
                    open_bounds(exterior, rings, i).unwrap()[j],
                    k,
                ),
    decreases i,
{
    if i > 0 {
        let bs = open_bounds(exterior, rings, i - 1).unwrap();
        let nb = open_bounds(exterior, rings, i).unwrap();
        lemma_open_bounds_cover(exterior, rings, i - 1);
        lemma_open_bounds_shape(exterior, rings, i - 1);
        let c = total_edge_count(rings, exterior[i - 1], exterior[i]);
        assert forall|k: int|
            0 <= k < i && #[trigger] single_ring_step(exterior, rings, k) implies exists|j: int|
            0 <= j < nb.len() && #[trigger] walks_step(nb[j], k) by {
            if k == i - 1 {
                let j = nb.len() - 1;
                if bs.len() == 0 || bs.last().len() == 0 {
                    assert(nb[j] == seq![(i - 1) as usize, i as usize]);
                    assert(nb[j][0] == k && nb[j][1] == k + 1);
                    assert(walks_step(nb[j], k));
                } else {
                    let l = bs.last();
                    assert(nb[j] == l.push(i as usize));
                    assert(nb[j][l.len() - 1] == k && nb[j][l.len() as int] == k + 1);
                    assert(walks_step(nb[j], k));
                }
            } else {
                let j = choose|j: int| 0 <= j < bs.len() && #[trigger] walks_step(bs[j], k);
                let m = choose|m: int| 0 <= m < bs[j].len() - 1 && #[trigger] bs[j][m] == k && bs[j][m + 1] == k + 1;
                if c == 0 {
                    assert(nb[j] == bs[j]);
                } else if j < bs.len() - 1 {
                    assert(nb[j] == bs[j]);
                } else {
                    assert(bs.last().len() > 0);
                    assert(nb[j] == bs[j].push(i as usize));
                    assert(nb[j][m] == k && nb[j][m + 1] == k + 1);
                }
                assert(walks_step(nb[j], k));
            }
        }
    }
}

/// Every step along the exterior that is an edge of exactly one ring, whichever ring it is,
/// lies in one of the separated boundary strings.
pub proof fn lemma_bounds_cover_single_edges(exterior: Seq<Option<u64>>, rings: Seq<Seq<Option<u64>>>)
    requires
        exterior.len() <= usize::MAX + 1,
        bounds_spec(exterior, rings) is Some,
    ensures
        forall|k: int|
            0 <= k < num_steps(exterior) && #[trigger] single_ring_step(exterior, rings, k)
                ==> exists|j: int|
                0 <= j < bounds_spec(exterior, rings).unwrap().len() && #[trigger] walks_step(
                    bounds_spec(exterior, rings).unwrap()[j],
                    k,
                ),
{
    let n = num_steps(exterior);
    lemma_open_bounds_cover(exterior, rings, n);
    let bs = open_bounds(exterior, rings, n).unwrap();
    let cb = bounds_spec(exterior, rings).unwrap();
    assert forall|k: int|
        0 <= k < n && #[trigger] single_ring_step(exterior, rings, k) implies exists|j: int|
        0 <= j < cb.len() && #[trigger] walks_step(cb[j], k) by {
        let j = choose|j: int| 0 <= j < bs.len() && #[trigger] walks_step(bs[j], k);
        let m = choose|m: int| 0 <= m < bs[j].len() - 1 && #[trigger] bs[j][m] == k && bs[j][m + 1] == k + 1;
        assert(cb[j] == closed(exterior, bs[j]));
        assert(cb[j][m] == k && cb[j][m + 1] == k + 1);
        assert(walks_step(cb[j], k));
    }
}

} // verus!
