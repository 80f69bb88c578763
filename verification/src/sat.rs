use vstd::prelude::*;
use crate::geom::{node_ok, poly_ok, Node, COORD_LIMIT};

verus! {

/// Largest magnitude of one component of an edge perpendicular.
pub const AXIS_BOUND: i64 = 1_000_000;

/// Largest magnitude of the projection of an in-range vertex onto an
/// in-range axis.
pub const PROJ_BOUND: i64 = 1_000_000_000_000;

/// Largest overlap the projection test can report, and the largest squared
/// length of an axis.
pub const OVERLAP_BOUND: i64 = 2_000_000_000_000;

/// The perpendicular of the polygon edge from vertex `i` to the next vertex
/// (wrapping around), not normalized.  A zero-length edge yields `(0, 0)`.
pub open spec fn edge_normal(p: Seq<Node>, i: int) -> (int, int)
    recommends
        0 <= i < p.len(),
{
    let a = p[i];
    let b = p[(i + 1) % (p.len() as int)];
    (a.y - b.y, b.x - a.x)
}

/// All candidate separating axes for a polygon pair: the edge perpendiculars
/// of the first polygon followed by those of the second.
pub open spec fn axes(p1: Seq<Node>, p2: Seq<Node>) -> Seq<(int, int)> {
    Seq::new(p1.len(), |i: int| edge_normal(p1, i)) + Seq::new(
        p2.len(),
        |i: int| edge_normal(p2, i),
    )
}

/// A zero axis, produced by a zero-length edge; it is skipped as a candidate.
pub open spec fn degenerate(a: (int, int)) -> bool {
    a.0 == 0 && a.1 == 0
}

/// Squared euclidean length of an axis.
pub open spec fn sq_len(a: (int, int)) -> int {
    a.0 * a.0 + a.1 * a.1
}

/// Projection of one vertex onto an axis (scaled by the axis length).
pub open spec fn proj(a: (int, int), n: Node) -> int {
    a.0 * n.x + a.1 * n.y
}

/// Least projection of a non-empty polygon onto an axis.
pub open spec fn proj_min(a: (int, int), p: Seq<Node>) -> int
    recommends
        p.len() > 0,
    decreases p.len(),
{
    if p.len() <= 1 {
        proj(a, p[0])
    } else {
        let m = proj_min(a, p.drop_last());
        let q = proj(a, p.last());
        if q < m {
            q
        } else {
            m
        }
    }
}

/// Greatest projection of a non-empty polygon onto an axis.
pub open spec fn proj_max(a: (int, int), p: Seq<Node>) -> int
    recommends
        p.len() > 0,
    decreases p.len(),
{
    if p.len() <= 1 {
        proj(a, p[0])
    } else {
        let m = proj_max(a, p.drop_last());
        let q = proj(a, p.last());
        if q > m {
            q
        } else {
            m
        }
    }
}

/// Overlap of the two polygons' projection intervals on an axis: zero when
/// the intervals are disjoint or merely touch, otherwise the smaller of the
/// two push-out distances (scaled by the axis length).
pub open spec fn overlap_on(a: (int, int), p1: Seq<Node>, p2: Seq<Node>) -> int {
    let min1 = proj_min(a, p1);
    let max1 = proj_max(a, p1);
    let min2 = proj_min(a, p2);
    let max2 = proj_max(a, p2);
    if max1 < min2 || max2 < min1 {
        0
    } else if max1 - min2 < max2 - min1 {
        max1 - min2
    } else {
        max2 - min1
    }
}

/// Exchanging the polygons does not change the overlap on any axis.
pub proof fn lemma_overlap_on_symmetric(a: (int, int), p1: Seq<Node>, p2: Seq<Node>)
    ensures
        overlap_on(a, p1, p2) == overlap_on(a, p2, p1),
{
}

/// A product of two values is bounded by the product of their bounds.
pub proof fn lemma_mul_bounds(x: int, y: int, bx: int, by: int)
    by (nonlinear_arith)
    requires
        -bx <= x <= bx,
        -by <= y <= by,
        0 <= bx,
        0 <= by,
    ensures
        -(bx * by) <= x * y <= bx * by,
{
}

/// The projection of an in-range vertex onto an in-range axis is bounded.
pub proof fn lemma_proj_bound(a: (int, int), n: Node)
    requires
        node_ok(n),
        -AXIS_BOUND <= a.0 <= AXIS_BOUND,
        -AXIS_BOUND <= a.1 <= AXIS_BOUND,
    ensures
        -PROJ_BOUND <= proj(a, n) <= PROJ_BOUND,
{
    lemma_mul_bounds(a.0, n.x as int, AXIS_BOUND as int, COORD_LIMIT as int);
    lemma_mul_bounds(a.1, n.y as int, AXIS_BOUND as int, COORD_LIMIT as int);
}

/// Projection extremes of an in-range polygon are bounded and ordered.
pub proof fn lemma_proj_minmax_bounds(a: (int, int), p: Seq<Node>)
    requires
        p.len() > 0,
        poly_ok(p),
        -AXIS_BOUND <= a.0 <= AXIS_BOUND,
        -AXIS_BOUND <= a.1 <= AXIS_BOUND,
    ensures
        -PROJ_BOUND <= proj_min(a, p) <= PROJ_BOUND,
        -PROJ_BOUND <= proj_max(a, p) <= PROJ_BOUND,
        proj_min(a, p) <= proj_max(a, p),
    decreases p.len(),
{
    if p.len() <= 1 {
        lemma_proj_bound(a, p[0]);
    } else {
        assert(poly_ok(p.drop_last())) by {
            assert(forall|i: int| 0 <= i < p.len() - 1 ==> p.drop_last()[i] == #[trigger] p[i]);
        }
        lemma_proj_minmax_bounds(a, p.drop_last());
        lemma_proj_bound(a, p.last());
    }
}

/// The overlap on any axis is non-negative, and bounded for in-range inputs.
pub proof fn lemma_overlap_bounds(a: (int, int), p1: Seq<Node>, p2: Seq<Node>)
    requires
        p1.len() > 0,
        p2.len() > 0,
        poly_ok(p1),
        poly_ok(p2),
        -AXIS_BOUND <= a.0 <= AXIS_BOUND,
        -AXIS_BOUND <= a.1 <= AXIS_BOUND,
    ensures
        0 <= overlap_on(a, p1, p2) <= OVERLAP_BOUND,
{
    lemma_proj_minmax_bounds(a, p1);
    lemma_proj_minmax_bounds(a, p2);
}

/// Compute the (unnormalized) perpendicular of the edge from `a` to `b`.
pub fn get_edge_normal(a: Node, b: Node) -> (r: (i64, i64))
    requires
        node_ok(a),
        node_ok(b),
    ensures
        r.0 == a.y - b.y,
        r.1 == b.x - a.x,
        -AXIS_BOUND <= r.0 <= AXIS_BOUND,
        -AXIS_BOUND <= r.1 <= AXIS_BOUND,
{
    (a.y - b.y, b.x - a.x)
}

/// Project every vertex of a polygon onto an axis and return the least and
/// greatest projection.
pub fn project_polygon(p: &Vec<Node>, axis_x: i64, axis_y: i64) -> (r: (i64, i64))
    requires
        p@.len() > 0,
        poly_ok(p@),
        -AXIS_BOUND <= axis_x <= AXIS_BOUND,
        -AXIS_BOUND <= axis_y <= AXIS_BOUND,
    ensures
        r.0 == proj_min((axis_x as int, axis_y as int), p@),
        r.1 == proj_max((axis_x as int, axis_y as int), p@),
        -PROJ_BOUND <= r.0 <= PROJ_BOUND,
        -PROJ_BOUND <= r.1 <= PROJ_BOUND,
        r.0 <= r.1,
{
    let ghost a = (axis_x as int, axis_y as int);
    let n0 = p[0];
    proof {
        lemma_mul_bounds(axis_x as int, n0.x as int, AXIS_BOUND as int, COORD_LIMIT as int);
        lemma_mul_bounds(axis_y as int, n0.y as int, AXIS_BOUND as int, COORD_LIMIT as int);
        assert(p@.take(1) =~= seq![p@[0]]);
    }
    let first = axis_x * n0.x + axis_y * n0.y;
    let mut lo: i64 = first;
    let mut hi: i64 = first;
    let mut i: usize = 1;
    while i < p.len()
        invariant
            1 <= i <= p@.len(),
            poly_ok(p@),
            -AXIS_BOUND <= axis_x <= AXIS_BOUND,
            -AXIS_BOUND <= axis_y <= AXIS_BOUND,
            a == (axis_x as int, axis_y as int),
            lo == proj_min(a, p@.take(i as int)),
            hi == proj_max(a, p@.take(i as int)),
            -PROJ_BOUND <= lo <= PROJ_BOUND,
            -PROJ_BOUND <= hi <= PROJ_BOUND,
        decreases p@.len() - i,
    {
        let n = p[i];
        proof {
            lemma_mul_bounds(axis_x as int, n.x as int, AXIS_BOUND as int, COORD_LIMIT as int);
            lemma_mul_bounds(axis_y as int, n.y as int, AXIS_BOUND as int, COORD_LIMIT as int);
        }
        let q = axis_x * n.x + axis_y * n.y;
        proof {
            assert(p@.take(i + 1).drop_last() =~= p@.take(i as int));
            assert(p@.take(i + 1).last() == p@[i as int]);
        }
        if q < lo {
            lo = q;
        }
        if q > hi {
            hi = q;
        }
        i = i + 1;
    }
    proof {
        assert(p@.take(p@.len() as int) =~= p@);
        lemma_proj_minmax_bounds(a, p@);
    }
    (lo, hi)
}

/// Overlap of two projection intervals: zero when they are disjoint or
/// merely touch, otherwise the smaller push-out distance.
pub fn calculate_overlap(min1: i64, max1: i64, min2: i64, max2: i64) -> (r: i64)
    requires
        -PROJ_BOUND <= min1 <= PROJ_BOUND,
        -PROJ_BOUND <= max1 <= PROJ_BOUND,
        -PROJ_BOUND <= min2 <= PROJ_BOUND,
        -PROJ_BOUND <= max2 <= PROJ_BOUND,
    ensures
        r == {
            if max1 < min2 || max2 < min1 {
                0int
            } else if max1 - min2 < max2 - min1 {
                max1 - min2
            } else {
                max2 - min1
            }
        },
{
    if max1 < min2 || max2 < min1 {
        0
    } else {
        let d1 = max1 - min2;
        let d2 = max2 - min1;
        if d1 < d2 {
            d1
        } else {
            d2
        }
    }
}

/// The minimum translation vector of a collision: the separating axis with
/// the least true overlap, unnormalized, and the overlap scaled by the axis
/// length.
#[derive(Clone, Copy, Debug, PartialEq, Eq, Structural)]
pub struct Mtv {
    pub axis_x: i64,
    pub axis_y: i64,
    pub overlap: i64,
}

/// The exec values of a candidate minimum translation vector are in range.
pub open spec fn mtv_ok(m: Mtv) -> bool {
    &&& -AXIS_BOUND <= m.axis_x <= AXIS_BOUND
    &&& -AXIS_BOUND <= m.axis_y <= AXIS_BOUND
    &&& 1 <= m.overlap <= OVERLAP_BOUND
    &&& !degenerate((m.axis_x as int, m.axis_y as int))
}

/// A nonzero axis has a squared length of at least one.
pub proof fn lemma_sq_len_pos(a: (int, int))
    by (nonlinear_arith)
    requires
        !degenerate(a),
    ensures
        sq_len(a) >= 1,
{
}

/// One step of the minimum-overlap fold: a degenerate axis is skipped, and
/// an axis replaces the best found so far exactly when its true overlap
/// (overlap divided by axis length) is strictly smaller.
pub open spec fn improves(new_ov: int, new_l: int, best_ov: int, best_l: int) -> bool {
    new_ov * new_ov * best_l < best_ov * best_ov * new_l
}

pub open spec fn mtv_step(
    p1: Seq<Node>,
    p2: Seq<Node>,
    best: Option<((int, int), int)>,
    a: (int, int),
) -> Option<((int, int), int)> {
    if degenerate(a) {
        best
    } else {
        let ov = overlap_on(a, p1, p2);
        match best {
            None => Some((a, ov)),
            Some((ba, bov)) => {
                if improves(ov, sq_len(a), bov, sq_len(ba)) {
                    Some((a, ov))
                } else {
                    best
                }
            },
        }
    }
}

/// The minimum-overlap fold over the first `i` candidate axes.
pub open spec fn mtv_prefix(p1: Seq<Node>, p2: Seq<Node>, i: int) -> Option<((int, int), int)>
    decreases i,
{
    if i <= 0 {
        None
    } else {
        mtv_step(p1, p2, mtv_prefix(p1, p2, i - 1), axes(p1, p2)[i - 1])
    }
}

/// Some non-degenerate candidate axis separates the two polygons (their
/// projections do not positively overlap on it).
pub open spec fn sep_axis_exists(p1: Seq<Node>, p2: Seq<Node>) -> bool {
    exists|i: int|
        0 <= i < axes(p1, p2).len() && !degenerate(#[trigger] axes(p1, p2)[i]) && overlap_on(
            axes(p1, p2)[i],
            p1,
            p2,
        ) == 0
}

/// The separating-axis collision verdict for a polygon pair.
///
/// `None` when either polygon has fewer than three vertices, when some
/// candidate axis separates the polygons, or when every candidate axis is
/// degenerate.  Otherwise the axis with the least true overlap, earliest
/// such axis first, together with its scaled overlap.
pub open spec fn sat_spec(p1: Seq<Node>, p2: Seq<Node>) -> Option<((int, int), int)> {
    if p1.len() < 3 || p2.len() < 3 {
        None
    } else if sep_axis_exists(p1, p2) {
        None
    } else {
        mtv_prefix(p1, p2, axes(p1, p2).len() as int)
    }
}

/// Map the exec representation of the running best axis to its spec value.
pub open spec fn best_view(o: Option<Mtv>) -> Option<((int, int), int)> {
    match o {
        None => None,
        Some(m) => Some(((m.axis_x as int, m.axis_y as int), m.overlap as int)),
    }
}

/// Test two polygons for overlap by the separating axis theorem.
///
/// Returns `None` when the polygons are proven disjoint (or either has
/// fewer than three vertices), and otherwise the minimum translation
/// vector: the candidate axis of least true overlap and the overlap scaled
/// by that axis's length.
pub fn sat_collision_test_with_mtv(p1: &Vec<Node>, p2: &Vec<Node>) -> (r: Option<Mtv>)
    requires
        poly_ok(p1@),
        poly_ok(p2@),
        p1@.len() + p2@.len() <= usize::MAX,
    ensures
        r is None <==> sat_spec(p1@, p2@) is None,
        r matches Some(m) ==> sat_spec(p1@, p2@) == best_view(r) && mtv_ok(m),
{
    if p1.len() < 3 || p2.len() < 3 {
        return None;
    }
    let n1 = p1.len();
    let n2 = p2.len();
    let total = n1 + n2;
    let mut best: Option<Mtv> = None;
    let mut k: usize = 0;
    assert(axes(p1@, p2@).len() == total);
    while k < total
        invariant
            p1@.len() >= 3,
            p2@.len() >= 3,
            poly_ok(p1@),
            poly_ok(p2@),
            n1 == p1@.len(),
            n2 == p2@.len(),
            total == n1 + n2,
            0 <= k <= total,
            best_view(best) == mtv_prefix(p1@, p2@, k as int),
            forall|j: int|
                0 <= j < k ==> !(!degenerate(#[trigger] axes(p1@, p2@)[j]) && overlap_on(
                    axes(p1@, p2@)[j],
                    p1@,
                    p2@,
                ) == 0),
            best matches Some(m) ==> mtv_ok(m),
        decreases total - k,
    {
        let ghost ga = axes(p1@, p2@)[k as int];
        let (ax, ay) = if k < n1 {
            let a = p1[k];
            let b = p1[if k + 1 == n1 {
                0
            } else {
                k + 1
            }];
            proof {
                if k + 1 == n1 {
                    vstd::arithmetic::div_mod::lemma_mod_self_0(n1 as int);
                } else {
                    vstd::arithmetic::div_mod::lemma_small_mod((k + 1) as nat, n1 as nat);
                }
            }
            get_edge_normal(a, b)
        } else {
            let i = k - n1;
            let a = p2[i];
            let b = p2[if i + 1 == n2 {
                0
            } else {
                i + 1
            }];
            proof {
                if i + 1 == n2 {
                    vstd::arithmetic::div_mod::lemma_mod_self_0(n2 as int);
                } else {
                    vstd::arithmetic::div_mod::lemma_small_mod((i + 1) as nat, n2 as nat);
                }
            }
            get_edge_normal(a, b)
        };
        proof {
            assert(ga == (ax as int, ay as int));
        }
        if ax == 0 && ay == 0 {
            proof {
                assert(mtv_prefix(p1@, p2@, k + 1) == mtv_step(
                    p1@,
                    p2@,
                    mtv_prefix(p1@, p2@, k as int),
                    ga,
                ));
            }
            k = k + 1;
        } else {
            let (min1, max1) = project_polygon(p1, ax, ay);
            let (min2, max2) = project_polygon(p2, ax, ay);
            let ov = calculate_overlap(min1, max1, min2, max2);
            proof {
                assert(ov == overlap_on(ga, p1@, p2@));
                lemma_overlap_bounds(ga, p1@, p2@);
            }
            if ov == 0 {
                proof {
                    assert(!degenerate(ga) && overlap_on(axes(p1@, p2@)[k as int], p1@, p2@) == 0);
                    assert(sep_axis_exists(p1@, p2@));
                }
                return None;
            }
            let new = Mtv { axis_x: ax, axis_y: ay, overlap: ov };
            proof {
                assert(mtv_prefix(p1@, p2@, k + 1) == mtv_step(
                    p1@,
                    p2@,
                    mtv_prefix(p1@, p2@, k as int),
                    ga,
                ));
            }
            match best {
                None => {
                    best = Some(new);
                },
                Some(b) => {
                    proof {
                        lemma_mul_bounds(ax as int, ax as int, AXIS_BOUND as int, AXIS_BOUND as int);
                        lemma_mul_bounds(ay as int, ay as int, AXIS_BOUND as int, AXIS_BOUND as int);
                        lemma_mul_bounds(
                            b.axis_x as int,
                            b.axis_x as int,
                            AXIS_BOUND as int,
                            AXIS_BOUND as int,
                        );
                        lemma_mul_bounds(
                            b.axis_y as int,
                            b.axis_y as int,
                            AXIS_BOUND as int,
                            AXIS_BOUND as int,
                        );
                    }
                    let l_new = ax * ax + ay * ay;
                    let l_best = b.axis_x * b.axis_x + b.axis_y * b.axis_y;
                    proof {
                        lemma_mul_bounds(
                            ov as int,
                            ov as int,
                            OVERLAP_BOUND as int,
                            OVERLAP_BOUND as int,
                        );
                        lemma_mul_bounds(
                            b.overlap as int,
                            b.overlap as int,
                            OVERLAP_BOUND as int,
                            OVERLAP_BOUND as int,
                        );
                        lemma_mul_bounds(
                            ov as int * ov as int,
                            l_best as int,
                            OVERLAP_BOUND as int * OVERLAP_BOUND as int,
                            2 * OVERLAP_BOUND as int,
                        );
                        lemma_mul_bounds(
                            b.overlap as int * b.overlap as int,
                            l_new as int,
                            OVERLAP_BOUND as int * OVERLAP_BOUND as int,
                            2 * OVERLAP_BOUND as int,
                        );
                    }
                    let lhs = (ov as i128) * (ov as i128) * (l_best as i128);
                    let rhs = (b.overlap as i128) * (b.overlap as i128) * (l_new as i128);
                    if lhs < rhs {
                        best = Some(new);
                    }
                },
            }
            k = k + 1;
        }
    }
    proof {
        assert(!sep_axis_exists(p1@, p2@));
        assert(best_view(best) == sat_spec(p1@, p2@));
    }
    best
}

/// The fold over a prefix of the axes yields nothing exactly when every
/// axis of the prefix is degenerate.
proof fn lemma_prefix_none(p1: Seq<Node>, p2: Seq<Node>, i: int)
    requires
        0 <= i <= axes(p1, p2).len(),
    ensures
        mtv_prefix(p1, p2, i) is None <==> forall|j: int|
            0 <= j < i ==> degenerate(#[trigger] axes(p1, p2)[j]),
    decreases i,
{
    if i > 0 {
        lemma_prefix_none(p1, p2, i - 1);
    }
}

/// A fold result is one of the folded axes, with its own overlap.
proof fn lemma_prefix_member(p1: Seq<Node>, p2: Seq<Node>, i: int)
    requires
        0 <= i <= axes(p1, p2).len(),
    ensures
        mtv_prefix(p1, p2, i) matches Some((a, ov)) ==> exists|j: int|
            0 <= j < i && #[trigger] axes(p1, p2)[j] == a && !degenerate(a) && ov == overlap_on(
                a,
                p1,
                p2,
            ),
    decreases i,
{
    if i > 0 {
        lemma_prefix_member(p1, p2, i - 1);
    }
}

/// Combining two non-improvement facts across a change of best axis.
proof fn lemma_improve_chain(
    jov: int,
    jl: int,
    bov: int,
    bl: int,
    nov: int,
    nl: int,
)
    by (nonlinear_arith)
    requires
        jov * jov * bl >= bov * bov * jl,
        nov * nov * bl < bov * bov * nl,
        bl >= 1,
        jl >= 1,
        nl >= 1,
    ensures
        nov * nov * jl <= jov * jov * nl,
{
    assert(nov * nov * bl * jl < bov * bov * nl * jl);
    assert(bov * bov * jl * nl <= jov * jov * bl * nl);
}

/// A fold result has the least true overlap among the folded axes:
/// no non-degenerate axis of the prefix strictly improves on it.
proof fn lemma_prefix_min(p1: Seq<Node>, p2: Seq<Node>, i: int)
    requires
        0 <= i <= axes(p1, p2).len(),
        p1.len() > 0,
        p2.len() > 0,
    ensures
        mtv_prefix(p1, p2, i) matches Some((a, ov)) ==> forall|j: int|
            0 <= j < i && !degenerate(#[trigger] axes(p1, p2)[j]) ==> !improves(
                overlap_on(axes(p1, p2)[j], p1, p2),
                sq_len(axes(p1, p2)[j]),
                ov,
                sq_len(a),
            ),
    decreases i,
{
    if i > 0 {
        lemma_prefix_min(p1, p2, i - 1);
        lemma_prefix_none(p1, p2, i - 1);
        let last = axes(p1, p2)[i - 1];
        if mtv_prefix(p1, p2, i) is Some {
            let (a, ov) = mtv_prefix(p1, p2, i)->Some_0;
            if !degenerate(last) {
                let lov = overlap_on(last, p1, p2);
                lemma_sq_len_pos(last);
                match mtv_prefix(p1, p2, i - 1) {
                    None => {
                        assert(a == last && ov == lov);
                        assert(!improves(lov, sq_len(last), ov, sq_len(a)));
                    },
                    Some((ba, bov)) => {
                        lemma_prefix_member(p1, p2, i - 1);
                        lemma_sq_len_pos(ba);
                        if improves(lov, sq_len(last), bov, sq_len(ba)) {
                            assert(a == last && ov == lov);
                            assert forall|j: int|
                                0 <= j < i && !degenerate(#[trigger] axes(p1, p2)[j]) implies !improves(
                                overlap_on(axes(p1, p2)[j], p1, p2),
                                sq_len(axes(p1, p2)[j]),
                                ov,
                                sq_len(a),
                            ) by {
                                if j < i - 1 {
                                    let jx = axes(p1, p2)[j];
                                    lemma_sq_len_pos(jx);
                                    lemma_improve_chain(
                                        overlap_on(jx, p1, p2),
                                        sq_len(jx),
                                        bov,
                                        sq_len(ba),
                                        lov,
                                        sq_len(last),
                                    );
                                } else {
                                    assert(!improves(lov, sq_len(last), ov, sq_len(a)));
                                }
                            }
                        } else {
                            assert(a == ba && ov == bov);
                        }
                    },
                }
            }
        }
    }
}

/// Every candidate axis of in-range polygons has components bounded by
/// `AXIS_BOUND`.
pub proof fn lemma_axes_bounded(p1: Seq<Node>, p2: Seq<Node>, j: int)
    requires
        poly_ok(p1),
        poly_ok(p2),
        p1.len() > 0,
        p2.len() > 0,
        0 <= j < axes(p1, p2).len(),
    ensures
        -AXIS_BOUND <= axes(p1, p2)[j].0 <= AXIS_BOUND,
        -AXIS_BOUND <= axes(p1, p2)[j].1 <= AXIS_BOUND,
{
    let n1 = p1.len() as int;
    let n2 = p2.len() as int;
    if j < n1 {
        vstd::arithmetic::div_mod::lemma_mod_bound(j + 1, n1);
        assert(node_ok(p1[j]));
        assert(node_ok(p1[(j + 1) % n1]));
    } else {
        let i = j - n1;
        vstd::arithmetic::div_mod::lemma_mod_bound(i + 1, n2);
        assert(node_ok(p2[i]));
        assert(node_ok(p2[(i + 1) % n2]));
    }
}

/// A collision verdict's axis is one of the candidate axes, is not
/// degenerate, and carries its own overlap.
pub proof fn lemma_sat_spec_member(p1: Seq<Node>, p2: Seq<Node>)
    ensures
        sat_spec(p1, p2) matches Some((a, ov)) ==> {
            &&& !degenerate(a)
            &&& ov == overlap_on(a, p1, p2)
            &&& exists|j: int|
                0 <= j < axes(p1, p2).len() && #[trigger] axes(p1, p2)[j] == a
        },
{
    if sat_spec(p1, p2) is Some {
        lemma_prefix_member(p1, p2, axes(p1, p2).len() as int);
    }
}

/// Each candidate axis of one ordering of the polygon pair occurs among the
/// candidate axes of the other ordering.
proof fn lemma_axes_swap(p1: Seq<Node>, p2: Seq<Node>, j: int)
    requires
        0 <= j < axes(p1, p2).len(),
    ensures
        exists|k: int| 0 <= k < axes(p2, p1).len() && #[trigger] axes(p2, p1)[k] == axes(p1, p2)[j],
{
    let n1 = p1.len() as int;
    let n2 = p2.len() as int;
    if j < n1 {
        assert(axes(p2, p1)[n2 + j] == axes(p1, p2)[j]);
    } else {
        assert(axes(p2, p1)[j - n1] == axes(p1, p2)[j]);
    }
}

/// Exchanging the two polygons does not change the collision verdict, and
/// the minimum translation vectors of the two orderings have the same true
/// overlap: `ov1 / sqrt(len1) == ov2 / sqrt(len2)`, stated here without
/// square roots by cross-multiplying the squares.  The reported axes
/// themselves may differ (in sense or by a tie), but not their scaled
/// overlap.
pub proof fn lemma_sat_symmetric(p1: Seq<Node>, p2: Seq<Node>)
    ensures
        sat_spec(p1, p2) is Some <==> sat_spec(p2, p1) is Some,
        match (sat_spec(p1, p2), sat_spec(p2, p1)) {
            (Some((a1, ov1)), Some((a2, ov2))) => ov1 * ov1 * sq_len(a2) == ov2 * ov2 * sq_len(a1),
            _ => true,
        },
{
    let ax12 = axes(p1, p2);
    let ax21 = axes(p2, p1);
    let n1 = p1.len() as int;
    let n2 = p2.len() as int;
    assert(ax12.len() == n1 + n2);
    assert(ax21.len() == n1 + n2);
    if sep_axis_exists(p1, p2) {
        let j = choose|j: int|
            0 <= j < ax12.len() && !degenerate(#[trigger] ax12[j]) && overlap_on(ax12[j], p1, p2)
                == 0;
        lemma_axes_swap(p1, p2, j);
        let k = choose|k: int| 0 <= k < ax21.len() && #[trigger] ax21[k] == ax12[j];
        lemma_overlap_on_symmetric(ax12[j], p1, p2);
        assert(!degenerate(ax21[k]) && overlap_on(ax21[k], p2, p1) == 0);
        assert(sep_axis_exists(p2, p1));
    }
    if sep_axis_exists(p2, p1) {
        let j = choose|j: int|
            0 <= j < ax21.len() && !degenerate(#[trigger] ax21[j]) && overlap_on(ax21[j], p2, p1)
                == 0;
        lemma_axes_swap(p2, p1, j);
        let k = choose|k: int| 0 <= k < ax12.len() && #[trigger] ax12[k] == ax21[j];
        lemma_overlap_on_symmetric(ax21[j], p1, p2);
        assert(!degenerate(ax12[k]) && overlap_on(ax12[k], p1, p2) == 0);
        assert(sep_axis_exists(p1, p2));
    }
    if p1.len() < 3 || p2.len() < 3 || sep_axis_exists(p1, p2) {
        assert(sat_spec(p1, p2) is None);
        assert(sat_spec(p2, p1) is None);
    } else {
        lemma_prefix_none(p1, p2, ax12.len() as int);
        lemma_prefix_none(p2, p1, ax21.len() as int);
        if mtv_prefix(p1, p2, ax12.len() as int) is None {
            assert forall|j: int| 0 <= j < ax21.len() implies degenerate(#[trigger] ax21[j]) by {
                lemma_axes_swap(p2, p1, j);
                let k = choose|k: int| 0 <= k < ax12.len() && #[trigger] ax12[k] == ax21[j];
                assert(degenerate(ax12[k]));
            }
            assert(sat_spec(p2, p1) is None);
        } else if mtv_prefix(p2, p1, ax21.len() as int) is None {
            assert forall|j: int| 0 <= j < ax12.len() implies degenerate(#[trigger] ax12[j]) by {
                lemma_axes_swap(p1, p2, j);
                let k = choose|k: int| 0 <= k < ax21.len() && #[trigger] ax21[k] == ax12[j];
                assert(degenerate(ax21[k]));
            }
            assert(sat_spec(p1, p2) is None);
        } else {
            lemma_prefix_member(p1, p2, ax12.len() as int);
            lemma_prefix_member(p2, p1, ax21.len() as int);
            lemma_prefix_min(p1, p2, ax12.len() as int);
            lemma_prefix_min(p2, p1, ax21.len() as int);
            let (a1, ov1) = mtv_prefix(p1, p2, ax12.len() as int)->Some_0;
            let (a2, ov2) = mtv_prefix(p2, p1, ax21.len() as int)->Some_0;
            let j1 = choose|j: int|
                0 <= j < ax12.len() && #[trigger] ax12[j] == a1 && !degenerate(a1) && ov1
                    == overlap_on(a1, p1, p2);
            let j2 = choose|j: int|
                0 <= j < ax21.len() && #[trigger] ax21[j] == a2 && !degenerate(a2) && ov2
                    == overlap_on(a2, p2, p1);
            lemma_axes_swap(p1, p2, j1);
            let k1 = choose|k: int| 0 <= k < ax21.len() && #[trigger] ax21[k] == a1;
            lemma_axes_swap(p2, p1, j2);
            let k2 = choose|k: int| 0 <= k < ax12.len() && #[trigger] ax12[k] == a2;
            lemma_overlap_on_symmetric(a1, p1, p2);
            lemma_overlap_on_symmetric(a2, p1, p2);
            assert(!improves(overlap_on(a1, p2, p1), sq_len(a1), ov2, sq_len(a2)));
            assert(!improves(overlap_on(a2, p1, p2), sq_len(a2), ov1, sq_len(a1)));
            assert(ov1 * ov1 * sq_len(a2) >= ov2 * ov2 * sq_len(a1));
            assert(ov2 * ov2 * sq_len(a1) >= ov1 * ov1 * sq_len(a2));
        }
    }
}

} // verus!
