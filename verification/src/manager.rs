use vstd::prelude::*;
use crate::error::CollisionError;
use crate::geom::{
    aabb, aabb_contains, aabb_spec, abs_int, lemma_aabb_spec_in_range, node_ok, poly_ok, Aabb,
    Node, COORD_LIMIT,
};
use crate::grid::{
    cell_ceil, cell_floor, cell_ranges_overlap, cells_of, lemma_cell_ordered, GridIndex,
};
use crate::sat::{
    axes, degenerate, lemma_mul_bounds, lemma_overlap_bounds, lemma_sq_len_pos, mtv_ok,
    overlap_on, sat_collision_test_with_mtv, sat_spec, sep_axis_exists, sq_len, Mtv, AXIS_BOUND,
    OVERLAP_BOUND,
};

verus! {

/// Iteration cap used by the convenience entry point.
pub const DEFAULT_MAX_ITERATIONS: u32 = 255;

/// Largest number of vertices one polygon may carry; far beyond any label
/// shape, it merely keeps vertex counts addressable.
pub const VERTEX_LIMIT: usize = 1_000_000;

/// Snap threshold in thousandths of a diagram unit: a required displacement
/// strictly below half a unit is treated as floating noise around tangency;
/// the residual overlap is accepted and the candidate is registered where it
/// stands.
pub const SNAP_DISTANCE: i64 = 500;

/// A collision manager for convex polygons, based on the separating axis
/// theorem, with a uniform spatial grid for candidate pruning and a
/// monotonically widening global bounding box.
pub struct CollisionManager {
    /// Spatial index: grid cell to identifiers of registered polygons whose
    /// bounding box spans the cell.  Callers must not mutate it.
    pub indices: GridIndex,
    /// All registered polygons, in registration order; an identifier is a
    /// stable index into this sequence.
    pub collisions: Vec<Vec<Node>>,
    /// Edge length of one grid cell, fixed at construction.
    pub unit_size: i64,
    /// Least x bound ever covered; never increases.
    pub x_min: i64,
    /// Greatest x bound ever covered; never decreases.
    pub x_max: i64,
    /// Least y bound ever covered; never increases.
    pub y_min: i64,
    /// Greatest y bound ever covered; never decreases.
    pub y_max: i64,
}

/// A movement direction: an integer vector, not necessarily of unit length,
/// with both components in range and not both zero.  Displacements are
/// counted in whole multiples of this vector.
pub open spec fn dir_ok(ux: int, uy: int) -> bool {
    &&& -COORD_LIMIT <= ux <= COORD_LIMIT
    &&& -COORD_LIMIT <= uy <= COORD_LIMIT
    &&& !(ux == 0 && uy == 0)
}

/// The global bounding box as one value.
pub open spec fn bounds_of(m: CollisionManager) -> Aabb {
    Aabb { x_min: m.x_min, x_max: m.x_max, y_min: m.y_min, y_max: m.y_max }
}

/// The smallest box containing both arguments.
pub open spec fn widen(b: Aabb, nb: Aabb) -> Aabb {
    Aabb {
        x_min: if nb.x_min < b.x_min { nb.x_min } else { b.x_min },
        x_max: if nb.x_max > b.x_max { nb.x_max } else { b.x_max },
        y_min: if nb.y_min < b.y_min { nb.y_min } else { b.y_min },
        y_max: if nb.y_max > b.y_max { nb.y_max } else { b.y_max },
    }
}

/// The cell `(cx, cy)` lies in the cell rectangle of bounding box `b`.
pub open spec fn cell_in_rect(cx: int, cy: int, b: Aabb, unit: int) -> bool {
    let (x0, x1, y0, y1) = cells_of(b, unit);
    x0 <= cx <= x1 && y0 <= cy <= y1
}

impl CollisionManager {
    /// The registered polygons as mathematical vertex sequences.
    pub open spec fn polys(self) -> Seq<Seq<Node>> {
        self.collisions@.map_values(|v: Vec<Node>| v@)
    }

    /// Internal consistency of the manager:
    /// the unit size is in range; every registered polygon is a valid
    /// in-range polygon; the global bounding box contains every registered
    /// polygon's bounding box; and the grid holds an identifier in a cell
    /// exactly when the polygon's bounding box spans that cell.
    pub open spec fn wf(self) -> bool {
        &&& 1 <= self.unit_size <= COORD_LIMIT
        &&& forall|i: int|
            0 <= i < self.polys().len() ==> {
                &&& (#[trigger] self.polys()[i]).len() >= 3
                &&& self.polys()[i].len() <= VERTEX_LIMIT
                &&& poly_ok(self.polys()[i])
            }
        &&& forall|i: int|
            0 <= i < self.polys().len() ==> aabb_contains(
                bounds_of(self),
                aabb_spec(#[trigger] self.polys()[i]),
            )
        &&& forall|i: int, cx: int, cy: int|
            #![trigger self.indices.ids_at(cx, cy), self.polys()[i]]
            0 <= i < self.polys().len() && cell_in_rect(
                cx,
                cy,
                aabb_spec(self.polys()[i]),
                self.unit_size as int,
            ) ==> self.indices.ids_at(cx, cy).contains(i as usize)
        &&& forall|cx: int, cy: int, j: int|
            0 <= j < self.indices.ids_at(cx, cy).len() ==> {
                let id = #[trigger] self.indices.ids_at(cx, cy)[j];
                &&& (id as int) < self.polys().len()
                &&& cell_in_rect(
                    cx,
                    cy,
                    aabb_spec(self.polys()[id as int]),
                    self.unit_size as int,
                )
            }
    }

    /// Create an empty manager over a grid with the given cell edge length.
    /// The global bounding box starts as the degenerate box at the origin.
    pub fn new(unit_size: i64) -> (r: CollisionManager)
        requires
            1 <= unit_size <= COORD_LIMIT,
        ensures
            r.wf(),
            r.polys().len() == 0,
            r.unit_size == unit_size,
            bounds_of(r) == (Aabb { x_min: 0i64, x_max: 0i64, y_min: 0i64, y_max: 0i64 }),
    {
        let r = CollisionManager {
            indices: GridIndex::new(),
            collisions: Vec::new(),
            unit_size,
            x_min: 0,
            x_max: 0,
            y_min: 0,
            y_max: 0,
        };
        proof {
            assert(r.polys().len() == 0);
        }
        r
    }

    /// Read the monotonic global bounding box.
    pub fn bounds(&self) -> (r: Aabb)
        ensures
            r == bounds_of(*self),
    {
        Aabb { x_min: self.x_min, x_max: self.x_max, y_min: self.y_min, y_max: self.y_max }
    }

    /// Widening the global box alone preserves the manager invariant.
    proof fn lemma_widen_preserves_wf(a: CollisionManager, b: CollisionManager)
        requires
            a.wf(),
            b.collisions == a.collisions,
            b.indices == a.indices,
            b.unit_size == a.unit_size,
            b.x_min <= a.x_min,
            b.x_max >= a.x_max,
            b.y_min <= a.y_min,
            b.y_max >= a.y_max,
        ensures
            b.wf(),
    {
        assert(b.polys() == a.polys());
        assert forall|i: int| 0 <= i < b.polys().len() implies aabb_contains(
            bounds_of(b),
            aabb_spec(#[trigger] b.polys()[i]),
        ) by {
            assert(aabb_contains(bounds_of(a), aabb_spec(a.polys()[i])));
        }
        assert forall|i: int, cx: int, cy: int|
            #![trigger b.indices.ids_at(cx, cy), b.polys()[i]]
            0 <= i < b.polys().len() && cell_in_rect(
                cx,
                cy,
                aabb_spec(b.polys()[i]),
                b.unit_size as int,
            ) implies b.indices.ids_at(cx, cy).contains(i as usize) by {
            assert(a.indices.ids_at(cx, cy).contains(i as usize));
        }
        assert forall|cx: int, cy: int, j: int|
            0 <= j < b.indices.ids_at(cx, cy).len() implies {
            let id = #[trigger] b.indices.ids_at(cx, cy)[j];
            &&& (id as int) < b.polys().len()
            &&& cell_in_rect(cx, cy, aabb_spec(b.polys()[id as int]), b.unit_size as int)
        } by {
            let id = a.indices.ids_at(cx, cy)[j];
            assert((id as int) < a.polys().len() && cell_in_rect(
                cx,
                cy,
                aabb_spec(a.polys()[id as int]),
                a.unit_size as int,
            ));
        }
    }

    /// Widen the global box to the left: lower its least x bound to `x_min`
    /// if that is smaller.
    pub fn update_x_min(&mut self, x_min: i64)
        requires
            old(self).wf(),
        ensures
            final(self).wf(),
            final(self).x_min == if x_min < old(self).x_min {
                x_min
            } else {
                old(self).x_min
            },
            final(self).x_max == old(self).x_max,
            final(self).y_min == old(self).y_min,
            final(self).y_max == old(self).y_max,
            final(self).collisions == old(self).collisions,
            final(self).indices == old(self).indices,
            final(self).unit_size == old(self).unit_size,
    {
        if x_min < self.x_min {
            self.x_min = x_min;
        }
        proof {
            Self::lemma_widen_preserves_wf(*old(self), *self);
        }
    }

    /// Widen the global box to the right: raise its greatest x bound to
    /// `x_max` if that is larger.
    pub fn update_x_max(&mut self, x_max: i64)
        requires
            old(self).wf(),
        ensures
            final(self).wf(),
            final(self).x_max == if x_max > old(self).x_max {
                x_max
            } else {
                old(self).x_max
            },
            final(self).x_min == old(self).x_min,
            final(self).y_min == old(self).y_min,
            final(self).y_max == old(self).y_max,
            final(self).collisions == old(self).collisions,
            final(self).indices == old(self).indices,
            final(self).unit_size == old(self).unit_size,
    {
        if x_max > self.x_max {
            self.x_max = x_max;
        }
        proof {
            Self::lemma_widen_preserves_wf(*old(self), *self);
        }
    }

    /// Widen the global box downward: lower its least y bound to `y_min` if
    /// that is smaller.
    pub fn update_y_min(&mut self, y_min: i64)
        requires
            old(self).wf(),
        ensures
            final(self).wf(),
            final(self).y_min == if y_min < old(self).y_min {
                y_min
            } else {
                old(self).y_min
            },
            final(self).x_min == old(self).x_min,
            final(self).x_max == old(self).x_max,
            final(self).y_max == old(self).y_max,
            final(self).collisions == old(self).collisions,
            final(self).indices == old(self).indices,
            final(self).unit_size == old(self).unit_size,
    {
        if y_min < self.y_min {
            self.y_min = y_min;
        }
        proof {
            Self::lemma_widen_preserves_wf(*old(self), *self);
        }
    }

    /// Widen the global box upward: raise its greatest y bound to `y_max`
    /// if that is larger.
    pub fn update_y_max(&mut self, y_max: i64)
        requires
            old(self).wf(),
        ensures
            final(self).wf(),
            final(self).y_max == if y_max > old(self).y_max {
                y_max
            } else {
                old(self).y_max
            },
            final(self).x_min == old(self).x_min,
            final(self).x_max == old(self).x_max,
            final(self).y_min == old(self).y_min,
            final(self).collisions == old(self).collisions,
            final(self).indices == old(self).indices,
            final(self).unit_size == old(self).unit_size,
    {
        if y_max > self.y_max {
            self.y_max = y_max;
        }
        proof {
            Self::lemma_widen_preserves_wf(*old(self), *self);
        }
    }

    /// Register a polygon as an obstacle.
    ///
    /// Fails with `InvalidShape` (and changes nothing) when the polygon has
    /// fewer than three vertices.  On success the polygon is appended to the
    /// registered sequence, its identifier (its index) is recorded in every
    /// grid cell its bounding box spans, the global bounding box is widened
    /// to contain the polygon's bounding box, and the identifier is
    /// returned.
    pub fn add_collision(&mut self, collision: Vec<Node>) -> (r: Result<usize, CollisionError>)
        requires
            old(self).wf(),
            poly_ok(collision@),
            collision@.len() <= VERTEX_LIMIT,
        ensures
            final(self).wf(),
            collision@.len() < 3 ==> r == Err::<usize, CollisionError>(CollisionError::InvalidShape)
                && *final(self) == *old(self),
            collision@.len() >= 3 ==> {
                &&& r == Ok::<usize, CollisionError>(old(self).polys().len() as usize)
                &&& final(self).polys() == old(self).polys().push(collision@)
                &&& bounds_of(*final(self)) == widen(bounds_of(*old(self)), aabb_spec(collision@))
                &&& final(self).unit_size == old(self).unit_size
                &&& aabb_contains(bounds_of(*final(self)), aabb_spec(collision@))
            },
    {
        if collision.len() < 3 {
            return Err(CollisionError::InvalidShape);
        }
        let b = match aabb(&collision) {
            Some(b) => b,
            None => {
                proof {
                    assert(false);
                }
                return Err(CollisionError::InvalidShape);
            },
        };
        proof {
            lemma_aabb_spec_in_range(collision@);
        }
        self.update_x_min(b.x_min);
        self.update_x_max(b.x_max);
        self.update_y_min(b.y_min);
        self.update_y_max(b.y_max);
        let idx = self.collisions.len();
        let ghost mid = *self;
        self.collisions.push(collision);
        proof {
            assert(self.polys() =~= mid.polys().push(collision@));
            assert(forall|i: int|
                0 <= i < mid.polys().len() ==> self.polys()[i] == #[trigger] mid.polys()[i]);
            assert(self.polys()[idx as int] == collision@);
        }
        let x0 = cell_floor(b.x_min, self.unit_size);
        let x1 = cell_ceil(b.x_max, self.unit_size);
        let y0 = cell_floor(b.y_min, self.unit_size);
        let y1 = cell_ceil(b.y_max, self.unit_size);
        proof {
            lemma_cell_ordered(b.x_min as int, b.x_max as int, self.unit_size as int);
            lemma_cell_ordered(b.y_min as int, b.y_max as int, self.unit_size as int);
        }
        let ghost pre = *self;
        self.indices.insert_rect(x0, x1, y0, y1, idx);
        proof {
            self.lemma_add_preserves_wf(*old(self), pre, collision@, idx);
        }
        Ok(idx)
    }

    /// Registration preserves the manager invariant and widens the bounds.
    proof fn lemma_add_preserves_wf(
        self,
        orig: CollisionManager,
        pre: CollisionManager,
        q: Seq<Node>,
        idx: usize,
    )
        requires
            orig.wf(),
            q.len() >= 3,
            q.len() <= VERTEX_LIMIT,
            poly_ok(q),
            idx as int == orig.polys().len(),
            pre.polys() == orig.polys().push(q),
            pre.unit_size == orig.unit_size,
            bounds_of(pre) == widen(bounds_of(orig), aabb_spec(q)),
            pre.indices == orig.indices,
            self.polys() == pre.polys(),
            self.unit_size == pre.unit_size,
            bounds_of(self) == bounds_of(pre),
            // effect of insert_rect over the cell rectangle of q
            forall|ax: int, ay: int|
                cell_in_rect(ax, ay, aabb_spec(q), orig.unit_size as int)
                    ==> self.indices.ids_at(ax, ay) == orig.indices.ids_at(ax, ay).push(
                    idx as usize,
                ),
            forall|ax: int, ay: int|
                !cell_in_rect(ax, ay, aabb_spec(q), orig.unit_size as int)
                    ==> self.indices.ids_at(ax, ay) == orig.indices.ids_at(ax, ay),
        ensures
            self.wf(),
            aabb_contains(bounds_of(self), aabb_spec(q)),
    {
        let u = orig.unit_size as int;
        assert(forall|i: int|
            0 <= i < orig.polys().len() ==> self.polys()[i] == #[trigger] orig.polys()[i]);
        assert(self.polys()[idx as int] == q);
        // every old box is still inside the widened global box
        assert(forall|i: int|
            0 <= i < orig.polys().len() ==> aabb_contains(
                bounds_of(self),
                aabb_spec(#[trigger] self.polys()[i]),
            ));
        assert(aabb_contains(bounds_of(self), aabb_spec(q)));
        // completeness: every id is still recorded in every cell of its box
        assert forall|i: int, cx: int, cy: int|
            #![trigger self.indices.ids_at(cx, cy), self.polys()[i]]
            0 <= i < self.polys().len() && cell_in_rect(
                cx,
                cy,
                aabb_spec(self.polys()[i]),
                u,
            ) implies self.indices.ids_at(cx, cy).contains(i as usize) by {
            if i < idx {
                assert(orig.indices.ids_at(cx, cy).contains(i as usize));
                let j = choose|j: int|
                    0 <= j < orig.indices.ids_at(cx, cy).len() && orig.indices.ids_at(cx, cy)[j]
                        == i as usize;
                if cell_in_rect(cx, cy, aabb_spec(q), u) {
                    assert(self.indices.ids_at(cx, cy)[j] == i as usize);
                } else {
                    assert(self.indices.ids_at(cx, cy)[j] == i as usize);
                }
            } else {
                assert(self.polys()[i] == q);
                let s = self.indices.ids_at(cx, cy);
                assert(s == orig.indices.ids_at(cx, cy).push(idx as usize));
                assert(s[s.len() - 1] == idx as usize);
            }
        }
        // soundness: every recorded id points at a polygon whose box spans
        // the cell
        assert forall|cx: int, cy: int, j: int|
            0 <= j < self.indices.ids_at(cx, cy).len() implies {
            let id = #[trigger] self.indices.ids_at(cx, cy)[j];
            &&& (id as int) < self.polys().len()
            &&& cell_in_rect(cx, cy, aabb_spec(self.polys()[id as int]), u)
        } by {
            let id = self.indices.ids_at(cx, cy)[j];
            if cell_in_rect(cx, cy, aabb_spec(q), u) {
                assert(self.indices.ids_at(cx, cy) == orig.indices.ids_at(cx, cy).push(
                    idx as usize,
                ));
                if j < orig.indices.ids_at(cx, cy).len() {
                    assert(orig.indices.ids_at(cx, cy)[j] == id);
                } else {
                    assert(id == idx as usize);
                    assert(self.polys()[id as int] == q);
                }
            } else {
                assert(self.indices.ids_at(cx, cy) == orig.indices.ids_at(cx, cy));
            }
        }
    }
}


/// The greater of two numbers.
pub open spec fn max2(a: int, b: int) -> int {
    if a > b {
        a
    } else {
        b
    }
}

/// First column shared by the cell rectangles of polygon `p` and of the
/// candidate box `qa` (meaningful when the rectangles overlap).
pub open spec fn fsx(p: Seq<Node>, qa: Aabb, u: int) -> int {
    max2(cells_of(aabb_spec(p), u).0, cells_of(qa, u).0)
}

/// First row shared by the cell rectangles of polygon `p` and of the
/// candidate box `qa`.
pub open spec fn fsy(p: Seq<Node>, qa: Aabb, u: int) -> int {
    max2(cells_of(aabb_spec(p), u).2, cells_of(qa, u).2)
}

/// `r` is the integer square root of `n`, rounded down.
pub open spec fn is_isqrt(n: int, r: int) -> bool {
    0 <= r && r * r <= n && n < (r + 1) * (r + 1)
}

/// The integer square root of a non-negative number, rounded down.
pub open spec fn isqrt(n: int) -> int {
    choose|r: int| is_isqrt(n, r)
}

/// Every non-negative number has an integer square root.
pub proof fn lemma_isqrt_exists(n: int)
    requires
        n >= 0,
    ensures
        is_isqrt(n, isqrt(n)),
    decreases n,
{
    if n == 0 {
        assert(is_isqrt(0, 0));
    } else {
        lemma_isqrt_exists(n - 1);
        let r = isqrt(n - 1);
        if (r + 1) * (r + 1) <= n {
            assert(is_isqrt(n, r + 1)) by (nonlinear_arith)
                requires
                    r >= 0,
                    r * r <= n - 1,
                    n - 1 < (r + 1) * (r + 1),
                    (r + 1) * (r + 1) <= n,
            ;
        } else {
            assert(is_isqrt(n, r));
        }
    }
}

/// The integer square root is unique.
pub proof fn lemma_isqrt_unique(n: int, r: int)
    requires
        is_isqrt(n, r),
    ensures
        r == isqrt(n),
{
    lemma_isqrt_exists(n);
    let r2 = isqrt(n);
    assert(r == r2) by (nonlinear_arith)
        requires
            0 <= r,
            r * r <= n,
            n < (r + 1) * (r + 1),
            0 <= r2,
            r2 * r2 <= n,
            n < (r2 + 1) * (r2 + 1),
    ;
}

/// Compute the integer square root by bisection.
fn isqrt_i128(n: i128) -> (r: i64)
    requires
        0 <= n < 4_000_000_000_000_000_000_000_000i128,
    ensures
        is_isqrt(n as int, r as int),
        0 <= r < 2_000_000_000_000,
{
    let mut lo: i64 = 0;
    let mut hi: i64 = 2_000_000_000_000;
    while lo + 1 < hi
        invariant
            0 <= lo < hi <= 2_000_000_000_000,
            (lo as int) * (lo as int) <= n as int,
            (n as int) < (hi as int) * (hi as int),
        decreases hi - lo,
    {
        let mid = lo + (hi - lo) / 2;
        proof {
            lemma_mul_bounds(mid as int, mid as int, 2_000_000_000_000, 2_000_000_000_000);
        }
        let sq = (mid as i128) * (mid as i128);
        if sq <= n {
            lo = mid;
        } else {
            hi = mid;
        }
    }
    lo
}

/// Ceiling division for positive divisors.
pub open spec fn ceil_div(a: int, b: int) -> int
    recommends
        b >= 1,
{
    (a + b - 1) / b
}

/// Ceiling division of a positive number by a positive number stays
/// between one and the dividend.
pub proof fn lemma_ceil_div_bounds(a: int, b: int)
    by (nonlinear_arith)
    requires
        a >= 1,
        b >= 1,
    ensures
        1 <= ceil_div(a, b) <= a,
        (ceil_div(a, b) - 1) * b < a <= ceil_div(a, b) * b,
{
}

/// Whole steps of the direction vector `(ux, uy)` needed to clear a
/// collision whose minimum translation vector is `(nx, ny)` with scaled
/// overlap `ov`.
///
/// When the direction is not perpendicular to the axis, the exact
/// requirement is `ov / |(nx, ny) . (ux, uy)|`, rounded up to a whole step.
/// When it is exactly perpendicular, no movement along the direction can
/// shrink the overlap through this axis; as a deliberate fallback the
/// overlap distance itself is used, i.e. enough whole steps that the
/// distance travelled reaches the true overlap: `ov` divided by the
/// integer square root of `|(nx,ny)|^2 * |(ux,uy)|^2`, rounded up.
pub open spec fn req_of(nx: int, ny: int, ov: int, ux: int, uy: int) -> int {
    let d = nx * ux + ny * uy;
    if d != 0 {
        ceil_div(ov, abs_int(d))
    } else {
        ceil_div(ov, isqrt(sq_len((nx, ny)) * (ux * ux + uy * uy)))
    }
}

/// What one registered polygon demands of the candidate: zero when their
/// cell rectangles do not meet or the exact test reports no collision,
/// otherwise the whole-step displacement that clears the reported minimum
/// translation vector.
pub open spec fn contrib_of(q: Seq<Node>, p: Seq<Node>, ux: int, uy: int, unit: int) -> int {
    if cell_ranges_overlap(aabb_spec(q), aabb_spec(p), unit) && sat_spec(q, p) is Some {
        let ((nx, ny), ov) = sat_spec(q, p)->Some_0;
        req_of(nx, ny, ov, ux, uy)
    } else {
        0
    }
}

/// The greatest demand among the first `i` registered polygons.
pub open spec fn max_required_prefix(
    polys: Seq<Seq<Node>>,
    q: Seq<Node>,
    ux: int,
    uy: int,
    unit: int,
    i: int,
) -> int
    decreases i,
{
    if i <= 0 {
        0
    } else {
        let prev = max_required_prefix(polys, q, ux, uy, unit, i - 1);
        let c = contrib_of(q, polys[i - 1], ux, uy, unit);
        if c > prev {
            c
        } else {
            prev
        }
    }
}

/// The displacement (in whole steps of the direction vector) the candidate
/// must make to clear every registered polygon it currently collides with;
/// zero when it collides with none.
pub open spec fn max_required(
    polys: Seq<Seq<Node>>,
    q: Seq<Node>,
    ux: int,
    uy: int,
    unit: int,
) -> int {
    max_required_prefix(polys, q, ux, uy, unit, polys.len() as int)
}

/// The maximum dominates every contribution and is attained (or zero).
pub proof fn lemma_max_required_props(
    polys: Seq<Seq<Node>>,
    q: Seq<Node>,
    ux: int,
    uy: int,
    unit: int,
    i: int,
)
    requires
        0 <= i <= polys.len(),
    ensures
        forall|j: int|
            0 <= j < i ==> contrib_of(q, #[trigger] polys[j], ux, uy, unit)
                <= max_required_prefix(polys, q, ux, uy, unit, i),
        max_required_prefix(polys, q, ux, uy, unit, i) >= 0,
        max_required_prefix(polys, q, ux, uy, unit, i) == 0 || exists|j: int|
            0 <= j < i && contrib_of(q, #[trigger] polys[j], ux, uy, unit) == max_required_prefix(
                polys,
                q,
                ux,
                uy,
                unit,
                i,
            ),
    decreases i,
{
    if i > 0 {
        lemma_max_required_props(polys, q, ux, uy, unit, i - 1);
    }
}

/// Bounds carried by any collision verdict of in-range polygons: the axis
/// components, its squared length, and the scaled overlap are all bounded,
/// and the overlap is positive.
pub proof fn lemma_sat_spec_bounds(p1: Seq<Node>, p2: Seq<Node>)
    requires
        poly_ok(p1),
        poly_ok(p2),
    ensures
        sat_spec(p1, p2) matches Some(((nx, ny), ov)) ==> {
            &&& -AXIS_BOUND <= nx <= AXIS_BOUND
            &&& -AXIS_BOUND <= ny <= AXIS_BOUND
            &&& 1 <= sq_len((nx, ny)) <= 2 * (AXIS_BOUND as int) * (AXIS_BOUND as int)
            &&& 1 <= ov <= OVERLAP_BOUND
        },
{
    if sat_spec(p1, p2) is Some {
        let ((nx, ny), ov) = sat_spec(p1, p2)->Some_0;
        crate::sat::lemma_sat_spec_member(p1, p2);
        let a = (nx, ny);
        let j = choose|j: int| 0 <= j < axes(p1, p2).len() && #[trigger] axes(p1, p2)[j] == a;
        crate::sat::lemma_axes_bounded(p1, p2, j);
        lemma_sq_len_pos(a);
        lemma_mul_bounds(nx, nx, AXIS_BOUND as int, AXIS_BOUND as int);
        lemma_mul_bounds(ny, ny, AXIS_BOUND as int, AXIS_BOUND as int);
        lemma_overlap_bounds(a, p1, p2);
        if ov == 0 {
            assert(!degenerate(axes(p1, p2)[j]) && overlap_on(axes(p1, p2)[j], p1, p2) == 0);
            assert(sep_axis_exists(p1, p2));
            assert(false);
        }
    }
}

/// A step requirement computed from an in-range minimum translation vector
/// is positive and bounded.
pub proof fn lemma_req_bounds(nx: int, ny: int, ov: int, ux: int, uy: int)
    requires
        -AXIS_BOUND <= nx <= AXIS_BOUND,
        -AXIS_BOUND <= ny <= AXIS_BOUND,
        !degenerate((nx, ny)),
        1 <= ov <= OVERLAP_BOUND,
        dir_ok(ux, uy),
    ensures
        1 <= req_of(nx, ny, ov, ux, uy) <= OVERLAP_BOUND,
{
    let d = nx * ux + ny * uy;
    if d != 0 {
        lemma_ceil_div_bounds(ov, abs_int(d));
    } else {
        let l = sq_len((nx, ny));
        let u2 = ux * ux + uy * uy;
        lemma_sq_len_pos((nx, ny));
        lemma_sq_len_pos((ux, uy));
        assert(l * u2 >= 1) by (nonlinear_arith)
            requires
                l >= 1,
                u2 >= 1,
        ;
        lemma_isqrt_exists(l * u2);
        let k = isqrt(l * u2);
        assert(k >= 1);
        lemma_ceil_div_bounds(ov, k);
    }
}

/// Compute the whole-step displacement that clears one reported collision.
fn required_for(m: Mtv, ux: i64, uy: i64) -> (t: i64)
    requires
        mtv_ok(m),
        dir_ok(ux as int, uy as int),
    ensures
        t as int == req_of(m.axis_x as int, m.axis_y as int, m.overlap as int, ux as int, uy as int),
        1 <= t <= OVERLAP_BOUND,
{
    proof {
        lemma_mul_bounds(m.axis_x as int, ux as int, AXIS_BOUND as int, COORD_LIMIT as int);
        lemma_mul_bounds(m.axis_y as int, uy as int, AXIS_BOUND as int, COORD_LIMIT as int);
        lemma_req_bounds(m.axis_x as int, m.axis_y as int, m.overlap as int, ux as int, uy as int);
    }
    let d = m.axis_x * ux + m.axis_y * uy;
    if d != 0 {
        let ad = if d < 0 {
            -d
        } else {
            d
        };
        proof {
            lemma_ceil_div_bounds(m.overlap as int, ad as int);
        }
        (m.overlap + ad - 1) / ad
    } else {
        proof {
            lemma_mul_bounds(m.axis_x as int, m.axis_x as int, AXIS_BOUND as int, AXIS_BOUND as int);
            lemma_mul_bounds(m.axis_y as int, m.axis_y as int, AXIS_BOUND as int, AXIS_BOUND as int);
            lemma_mul_bounds(ux as int, ux as int, COORD_LIMIT as int, COORD_LIMIT as int);
            lemma_mul_bounds(uy as int, uy as int, COORD_LIMIT as int, COORD_LIMIT as int);
        }
        let l = m.axis_x * m.axis_x + m.axis_y * m.axis_y;
        let u2 = ux * ux + uy * uy;
        proof {
            lemma_mul_bounds(
                l as int,
                u2 as int,
                2 * (AXIS_BOUND as int) * (AXIS_BOUND as int),
                2 * (COORD_LIMIT as int) * (COORD_LIMIT as int),
            );
            lemma_sq_len_pos((m.axis_x as int, m.axis_y as int));
            lemma_sq_len_pos((ux as int, uy as int));
            assert((l as int) * (u2 as int) >= 1) by (nonlinear_arith)
                requires
                    l as int >= 1,
                    u2 as int >= 1,
            ;
        }
        let prod = (l as i128) * (u2 as i128);
        let k = isqrt_i128(prod);
        proof {
            lemma_isqrt_unique(prod as int, k as int);
            assert(k as int >= 1) by (nonlinear_arith)
                requires
                    prod as int >= 1,
                    is_isqrt(prod as int, k as int),
            ;
            lemma_ceil_div_bounds(m.overlap as int, k as int);
        }
        (m.overlap + k - 1) / k
    }
}

impl CollisionManager {
    /// Test a candidate polygon against every registered polygon it might
    /// collide with (those found through the grid), and report the
    /// whole-step displacement along the direction `(ux, uy)` that would
    /// clear all reported collisions.
    ///
    /// `Err(InvalidShape)` when the candidate has fewer than three
    /// vertices; `Ok(None)` when no probed polygon collides; otherwise
    /// `Ok(Some(t))` with `t` the greatest per-collision requirement.
    fn check_collision(&self, collision: &Vec<Node>, ux: i64, uy: i64) -> (r: Result<
        Option<i64>,
        CollisionError,
    >)
        requires
            self.wf(),
            poly_ok(collision@),
            collision@.len() <= VERTEX_LIMIT,
            dir_ok(ux as int, uy as int),
        ensures
            ({
                let req = max_required(
                    self.polys(),
                    collision@,
                    ux as int,
                    uy as int,
                    self.unit_size as int,
                );
                &&& (collision@.len() < 3 ==> r == Err::<Option<i64>, CollisionError>(
                    CollisionError::InvalidShape,
                ))
                &&& (collision@.len() >= 3 && req == 0 ==> r == Ok::<Option<i64>, CollisionError>(
                    None,
                ))
                &&& (collision@.len() >= 3 && req > 0 ==> req <= OVERLAP_BOUND && r == Ok::<
                    Option<i64>,
                    CollisionError,
                >(Some(req as i64)))
            }),
    {
        if collision.len() < 3 {
            return Err(CollisionError::InvalidShape);
        }
        let b = match aabb(collision) {
            Some(b) => b,
            None => {
                proof {
                    assert(false);
                }
                return Err(CollisionError::InvalidShape);
            },
        };
        proof {
            lemma_aabb_spec_in_range(collision@);
        }
        let ghost q = collision@;
        let ghost ps = self.polys();
        let ghost u = self.unit_size as int;
        let ghost uxi = ux as int;
        let ghost uyi = uy as int;
        let ghost qa = aabb_spec(q);
        let x0 = cell_floor(b.x_min, self.unit_size);
        let x1 = cell_ceil(b.x_max, self.unit_size);
        let y0 = cell_floor(b.y_min, self.unit_size);
        let y1 = cell_ceil(b.y_max, self.unit_size);
        proof {
            lemma_cell_ordered(b.x_min as int, b.x_max as int, u);
            lemma_cell_ordered(b.y_min as int, b.y_max as int, u);
        }
        let mut m: i64 = 0;
        let mut cx: u32 = x0;
        while cx <= x1
            invariant
                self.wf(),
                poly_ok(q),
                3 <= q.len() <= VERTEX_LIMIT,
                dir_ok(uxi, uyi),
                uxi == ux as int,
                uyi == uy as int,
                q == collision@,
                ps == self.polys(),
                u == self.unit_size as int,
                qa == aabb_spec(q),
                cells_of(qa, u) == (x0 as int, x1 as int, y0 as int, y1 as int),
                x0 <= x1,
                y0 <= y1,
                x1 <= crate::grid::CELL_BOUND,
                y1 <= crate::grid::CELL_BOUND,
                x0 <= cx <= x1 + 1,
                0 <= m <= OVERLAP_BOUND,
                m == 0 || exists|j: int|
                    0 <= j < ps.len() && contrib_of(q, #[trigger] ps[j], uxi, uyi, u) == m,
                forall|j: int|
                    0 <= j < ps.len() && cell_ranges_overlap(qa, aabb_spec(#[trigger] ps[j]), u)
                        && fsx(ps[j], qa, u) < cx ==> contrib_of(q, ps[j], uxi, uyi, u) <= m,
            decreases x1 + 1 - cx,
        {
            let mut cy: u32 = y0;
            while cy <= y1
                invariant
                    self.wf(),
                    poly_ok(q),
                    3 <= q.len() <= VERTEX_LIMIT,
                    dir_ok(uxi, uyi),
                    uxi == ux as int,
                    uyi == uy as int,
                    q == collision@,
                    ps == self.polys(),
                    u == self.unit_size as int,
                    qa == aabb_spec(q),
                    cells_of(qa, u) == (x0 as int, x1 as int, y0 as int, y1 as int),
                    x0 <= x1,
                    y0 <= y1,
                    x1 <= crate::grid::CELL_BOUND,
                    y1 <= crate::grid::CELL_BOUND,
                    x0 <= cx <= x1,
                    y0 <= cy <= y1 + 1,
                    0 <= m <= OVERLAP_BOUND,
                    m == 0 || exists|j: int|
                        0 <= j < ps.len() && contrib_of(q, #[trigger] ps[j], uxi, uyi, u) == m,
                    forall|j: int|
                        0 <= j < ps.len() && cell_ranges_overlap(qa, aabb_spec(#[trigger] ps[j]), u)
                            && fsx(ps[j], qa, u) < cx ==> contrib_of(q, ps[j], uxi, uyi, u) <= m,
                    forall|j: int|
                        0 <= j < ps.len() && cell_ranges_overlap(qa, aabb_spec(#[trigger] ps[j]), u)
                            && fsx(ps[j], qa, u) == cx && fsy(ps[j], qa, u) < cy ==> contrib_of(
                            q,
                            ps[j],
                            uxi,
                            uyi,
                            u,
                        ) <= m,
                decreases y1 + 1 - cy,
            {
                let ghost m_at_cell_start = m;
                match self.indices.ids_in_cell(cx, cy) {
                    None => {
                        proof {
                            assert forall|j: int|
                                0 <= j < ps.len() && cell_ranges_overlap(
                                    qa,
                                    aabb_spec(#[trigger] ps[j]),
                                    u,
                                ) && fsx(ps[j], qa, u) == cx && fsy(ps[j], qa, u)
                                == cy implies contrib_of(q, ps[j], uxi, uyi, u) <= m by {
                                assert(ps[j] == self.polys()[j]);
                                assert(ps.len() == self.collisions.len());
                                lemma_aabb_spec_in_range(ps[j]);
                                lemma_cell_ordered(
                                    aabb_spec(ps[j]).x_min as int,
                                    aabb_spec(ps[j]).x_max as int,
                                    u,
                                );
                                lemma_cell_ordered(
                                    aabb_spec(ps[j]).y_min as int,
                                    aabb_spec(ps[j]).y_max as int,
                                    u,
                                );
                                assert(cell_in_rect(cx as int, cy as int, aabb_spec(ps[j]), u));
                                assert(self.indices.ids_at(cx as int, cy as int).contains(
                                    j as usize,
                                ));
                                assert(false);
                            }
                        }
                    },
                    Some(bucket) => {
                        let mut bi: usize = 0;
                        let blen = bucket.len();
                        while bi < blen
                            invariant
                                self.wf(),
                                poly_ok(q),
                                3 <= q.len() <= VERTEX_LIMIT,
                                dir_ok(uxi, uyi),
                                uxi == ux as int,
                                uyi == uy as int,
                                q == collision@,
                                ps == self.polys(),
                                u == self.unit_size as int,
                                qa == aabb_spec(q),
                                cells_of(qa, u) == (x0 as int, x1 as int, y0 as int, y1 as int),
                                x0 <= cx <= x1,
                                y0 <= cy <= y1,
                                bucket@ == self.indices.ids_at(cx as int, cy as int),
                                blen == bucket@.len(),
                                0 <= bi <= blen,
                                0 <= m <= OVERLAP_BOUND,
                                m == 0 || exists|j: int|
                                    0 <= j < ps.len() && contrib_of(
                                        q,
                                        #[trigger] ps[j],
                                        uxi,
                                        uyi,
                                        u,
                                    ) == m,
                                m >= m_at_cell_start,
                                forall|k: int|
                                    0 <= k < bi ==> contrib_of(
                                        q,
                                        ps[#[trigger] bucket@[k] as int],
                                        uxi,
                                        uyi,
                                        u,
                                    ) <= m,
                            decreases blen - bi,
                        {
                            let id = bucket[bi];
                            proof {
                                assert(self.indices.ids_at(cx as int, cy as int)[bi as int] == id);
                                assert((id as int) < ps.len() && cell_in_rect(
                                    cx as int,
                                    cy as int,
                                    aabb_spec(ps[id as int]),
                                    u,
                                ));
                                assert(ps[id as int] == self.collisions@[id as int]@);
                            }
                            let p = &self.collisions[id];
                            proof {
                                assert(poly_ok(p@) && p@.len() >= 3);
                                assert(cell_ranges_overlap(qa, aabb_spec(p@), u));
                            }
                            let verdict = sat_collision_test_with_mtv(collision, p);
                            match verdict {
                                None => {
                                    proof {
                                        assert(contrib_of(q, ps[id as int], uxi, uyi, u) == 0);
                                    }
                                },
                                Some(mtv) => {
                                    let t = required_for(mtv, ux, uy);
                                    proof {
                                        lemma_sat_spec_bounds(q, ps[id as int]);
                                        assert(contrib_of(q, ps[id as int], uxi, uyi, u)
                                            == t as int);
                                    }
                                    if t > m {
                                        m = t;
                                    }
                                },
                            }
                            bi = bi + 1;
                        }
                        proof {
                            assert forall|j: int|
                                0 <= j < ps.len() && cell_ranges_overlap(
                                    qa,
                                    aabb_spec(#[trigger] ps[j]),
                                    u,
                                ) && fsx(ps[j], qa, u) == cx && fsy(ps[j], qa, u)
                                == cy implies contrib_of(q, ps[j], uxi, uyi, u) <= m by {
                                assert(ps[j] == self.polys()[j]);
                                assert(ps.len() == self.collisions.len());
                                lemma_aabb_spec_in_range(ps[j]);
                                lemma_cell_ordered(
                                    aabb_spec(ps[j]).x_min as int,
                                    aabb_spec(ps[j]).x_max as int,
                                    u,
                                );
                                lemma_cell_ordered(
                                    aabb_spec(ps[j]).y_min as int,
                                    aabb_spec(ps[j]).y_max as int,
                                    u,
                                );
                                assert(cell_in_rect(cx as int, cy as int, aabb_spec(ps[j]), u));
                                assert(self.indices.ids_at(cx as int, cy as int).contains(
                                    j as usize,
                                ));
                                let k = choose|k: int|
                                    0 <= k < bucket@.len() && bucket@[k] == j as usize;
                                assert(0 <= k < bucket@.len() && bucket@[k] == j as usize);
                                assert(bucket@[k] as int == j);
                                assert(contrib_of(q, ps[bucket@[k] as int], uxi, uyi, u) <= m);
                            }
                        }
                    },
                }
                cy = cy + 1;
            }
            proof {
                assert forall|j: int|
                    0 <= j < ps.len() && cell_ranges_overlap(qa, aabb_spec(#[trigger] ps[j]), u)
                        && fsx(ps[j], qa, u) < cx + 1 implies contrib_of(q, ps[j], uxi, uyi, u)
                    <= m by {
                    if fsx(ps[j], qa, u) == cx as int {
                        lemma_aabb_spec_in_range(ps[j]);
                        lemma_cell_ordered(
                            aabb_spec(ps[j]).y_min as int,
                            aabb_spec(ps[j]).y_max as int,
                            u,
                        );
                        assert(fsy(ps[j], qa, u) <= y1 as int);
                    }
                }
            }
            cx = cx + 1;
        }
        proof {
            assert forall|j: int| 0 <= j < ps.len() implies contrib_of(
                q,
                #[trigger] ps[j],
                uxi,
                uyi,
                u,
            ) <= m by {
                if cell_ranges_overlap(qa, aabb_spec(ps[j]), u) {
                    lemma_aabb_spec_in_range(ps[j]);
                    lemma_cell_ordered(
                        aabb_spec(ps[j]).x_min as int,
                        aabb_spec(ps[j]).x_max as int,
                        u,
                    );
                    assert(fsx(ps[j], qa, u) <= x1 as int);
                }
            }
            lemma_max_required_props(ps, q, uxi, uyi, u, ps.len() as int);
        }
        if m == 0 {
            Ok(None)
        } else {
            Ok(Some(m))
        }
    }
}

/// The x coordinate of a vertex after `t` whole steps of the direction.
pub open spec fn move_in_range(p: Seq<Node>, ux: int, uy: int, t: int) -> bool {
    forall|i: int|
        0 <= i < p.len() ==> {
            &&& -COORD_LIMIT <= (#[trigger] p[i]).x + t * ux <= COORD_LIMIT
            &&& -COORD_LIMIT <= p[i].y + t * uy <= COORD_LIMIT
        }
}

/// The polygon translated by `t` whole steps of the direction vector.
pub open spec fn move_poly(p: Seq<Node>, ux: int, uy: int, t: int) -> Seq<Node> {
    Seq::new(
        p.len(),
        |i: int| Node { x: (p[i].x + t * ux) as i64, y: (p[i].y + t * uy) as i64 },
    )
}

/// The outcome of the iterative displacement resolution, as a mathematical
/// value.
pub enum Resolution {
    /// The iteration cap was reached while collisions remained.
    Exhausted,
    /// The candidate had fewer than three vertices.
    Invalid,
    /// A displacement step would have left the supported coordinate range.
    OutOfRange,
    /// The final collision-free (or snapped) placement, with the total
    /// displacement in whole steps of the direction vector.
    Done { placed: Seq<Node>, total: int },
}

/// One run of the displacement loop, defined recursively exactly as the
/// executable loop steps: at each iteration the candidate is tested against
/// the registered polygons; with no collision (or a required displacement
/// whose euclidean length is strictly below the snap threshold) the current
/// position is final; otherwise every vertex is translated by the required
/// whole-step displacement along the direction and the loop repeats, until
/// the iteration cap is reached.
pub open spec fn resolve_spec(
    polys: Seq<Seq<Node>>,
    unit: int,
    q: Seq<Node>,
    ux: int,
    uy: int,
    max_iter: int,
    iter: int,
    acc: int,
) -> Resolution
    decreases max_iter - iter,
{
    if iter >= max_iter {
        Resolution::Exhausted
    } else if q.len() < 3 {
        Resolution::Invalid
    } else {
        let t = max_required(polys, q, ux, uy, unit);
        if t == 0 {
            Resolution::Done { placed: q, total: acc }
        } else if t * t * (ux * ux + uy * uy) < SNAP_DISTANCE * SNAP_DISTANCE {
            Resolution::Done { placed: q, total: acc }
        } else if !move_in_range(q, ux, uy, t) {
            Resolution::OutOfRange
        } else {
            resolve_spec(polys, unit, move_poly(q, ux, uy, t), ux, uy, max_iter, iter + 1, acc + t)
        }
    }
}

/// A candidate that collides with nothing registered is placed where it
/// stands: resolving it (with at least one iteration allowed) returns the
/// candidate unchanged and zero additional displacement.  In particular,
/// resolving the output of a successful resolution again, against a manager
/// state in which it does not collide, moves it no further.
pub proof fn lemma_resolve_no_collision(
    polys: Seq<Seq<Node>>,
    unit: int,
    q: Seq<Node>,
    ux: int,
    uy: int,
    max_iter: int,
)
    requires
        max_iter >= 1,
        q.len() >= 3,
        max_required(polys, q, ux, uy, unit) == 0,
    ensures
        resolve_spec(polys, unit, q, ux, uy, max_iter, 0, 0) == (Resolution::Done {
            placed: q,
            total: 0,
        }),
{
}

/// What a successful resolution promises of its placement: the returned
/// polygon demands no further displacement at all, or only one whose
/// euclidean length lies strictly below the snap threshold (the accepted
/// residual overlap around tangency); and the total displacement never
/// falls below what had accumulated when the loop began.
pub proof fn lemma_resolve_done_characterization(
    polys: Seq<Seq<Node>>,
    unit: int,
    q: Seq<Node>,
    ux: int,
    uy: int,
    max_iter: int,
    iter: int,
    acc: int,
)
    ensures
        resolve_spec(polys, unit, q, ux, uy, max_iter, iter, acc) matches Resolution::Done {
            placed,
            total,
        } ==> {
            let t = max_required(polys, placed, ux, uy, unit);
            &&& (t == 0 || t * t * (ux * ux + uy * uy) < SNAP_DISTANCE * SNAP_DISTANCE)
            &&& total >= acc
            &&& placed.len() == q.len()
        },
    decreases max_iter - iter,
{
    if iter >= max_iter {
    } else if q.len() < 3 {
    } else {
        let t = max_required(polys, q, ux, uy, unit);
        if t == 0 {
        } else if t * t * (ux * ux + uy * uy) < SNAP_DISTANCE * SNAP_DISTANCE {
        } else if !move_in_range(q, ux, uy, t) {
        } else {
            lemma_max_required_props(polys, q, ux, uy, unit, polys.len() as int);
            lemma_resolve_done_characterization(
                polys,
                unit,
                move_poly(q, ux, uy, t),
                ux,
                uy,
                max_iter,
                iter + 1,
                acc + t,
            );
        }
    }
}

/// Copy a polygon vertex by vertex.
fn copy_poly(v: &Vec<Node>) -> (r: Vec<Node>)
    ensures
        r@ == v@,
{
    let mut r: Vec<Node> = Vec::new();
    let mut i: usize = 0;
    while i < v.len()
        invariant
            0 <= i <= v@.len(),
            r@.len() == i,
            forall|k: int| 0 <= k < i ==> r@[k] == v@[k],
        decreases v@.len() - i,
    {
        let n = v[i];
        r.push(n);
        i = i + 1;
    }
    proof {
        assert(r@ =~= v@);
    }
    r
}

/// A non-negative number with a bounded multiple is itself bounded.
proof fn lemma_factor_bound(a: int, b: int, c: int)
    by (nonlinear_arith)
    requires
        a >= 0,
        b != 0,
        -c <= a * b <= c,
        c >= 0,
    ensures
        a <= c,
{
}

impl CollisionManager {
    /// Resolve a candidate polygon against everything registered by moving
    /// it along the direction `(ux, uy)`, then register the final placement.
    ///
    /// Each iteration tests the candidate against the registered polygons
    /// found through the grid; the greatest per-collision requirement is
    /// taken, the candidate is moved by that many whole steps of the
    /// direction vector, and the loop repeats.  A requirement of euclidean
    /// length strictly below the snap threshold is accepted as resolved.
    /// Returns the final placement and the total displacement in whole
    /// steps.  Fails with `ResolutionExhausted` after `max_iterations`
    /// iterations, with `InvalidShape` for a candidate of fewer than three
    /// vertices, and with `OutOfRange` when a step would leave the
    /// supported coordinate range; on failure the manager is unchanged.
    pub fn resolve_collisions_recursive(
        &mut self,
        collision: Vec<Node>,
        ux: i64,
        uy: i64,
        max_iterations: u32,
    ) -> (r: Result<(Vec<Node>, i64), CollisionError>)
        requires
            old(self).wf(),
            poly_ok(collision@),
            collision@.len() <= VERTEX_LIMIT,
            dir_ok(ux as int, uy as int),
        ensures
            final(self).wf(),
            ({
                let outcome = resolve_spec(
                    old(self).polys(),
                    old(self).unit_size as int,
                    collision@,
                    ux as int,
                    uy as int,
                    max_iterations as int,
                    0,
                    0,
                );
                match outcome {
                    Resolution::Exhausted => r == Err::<(Vec<Node>, i64), CollisionError>(
                        CollisionError::ResolutionExhausted,
                    ) && *final(self) == *old(self),
                    Resolution::Invalid => r == Err::<(Vec<Node>, i64), CollisionError>(
                        CollisionError::InvalidShape,
                    ) && *final(self) == *old(self),
                    Resolution::OutOfRange => r == Err::<(Vec<Node>, i64), CollisionError>(
                        CollisionError::OutOfRange,
                    ) && *final(self) == *old(self),
                    Resolution::Done { placed, total } => {
                        &&& r matches Ok(ok) && ok.0@ == placed && ok.1 as int == total
                        &&& final(self).polys() == old(self).polys().push(placed)
                        &&& bounds_of(*final(self)) == widen(
                            bounds_of(*old(self)),
                            aabb_spec(placed),
                        )
                        &&& final(self).unit_size == old(self).unit_size
                    },
                }
            }),
    {
        let ghost polys0 = old(self).polys();
        let ghost u = old(self).unit_size as int;
        let ghost uxi = ux as int;
        let ghost uyi = uy as int;
        let ghost mi = max_iterations as int;
        let mut cur = collision;
        let mut iter: u32 = 0;
        let mut acc: i64 = 0;
        while iter < max_iterations
            invariant
                *self == *old(self),
                self.wf(),
                polys0 == self.polys(),
                u == self.unit_size as int,
                uxi == ux as int,
                uyi == uy as int,
                mi == max_iterations as int,
                dir_ok(uxi, uyi),
                poly_ok(cur@),
                cur@.len() == collision@.len(),
                collision@.len() <= VERTEX_LIMIT,
                poly_ok(collision@),
                0 <= iter <= max_iterations,
                0 <= acc <= 2 * COORD_LIMIT,
                forall|k: int|
                    0 <= k < cur@.len() ==> (#[trigger] cur@[k]).x == collision@[k].x + acc * uxi
                        && cur@[k].y == collision@[k].y + acc * uyi,
                resolve_spec(polys0, u, collision@, uxi, uyi, mi, 0, 0) == resolve_spec(
                    polys0,
                    u,
                    cur@,
                    uxi,
                    uyi,
                    mi,
                    iter as int,
                    acc as int,
                ),
            decreases max_iterations - iter,
        {
            let ghost req = max_required(polys0, cur@, uxi, uyi, u);
            proof {
                lemma_max_required_props(polys0, cur@, uxi, uyi, u, polys0.len() as int);
            }
            let checked = self.check_collision(&cur, ux, uy);
            let t_opt = match checked {
                Ok(v) => v,
                Err(e) => {
                    proof {
                        assert(cur@.len() < 3);
                        assert(resolve_spec(polys0, u, cur@, uxi, uyi, mi, iter as int, acc as int)
                            == Resolution::Invalid);
                    }
                    return Err(e);
                },
            };
            match t_opt {
                None => {
                    proof {
                        assert(req == 0);
                        assert(resolve_spec(polys0, u, cur@, uxi, uyi, mi, iter as int, acc as int)
                            == (Resolution::Done { placed: cur@, total: acc as int }));
                    }
                    let placed = copy_poly(&cur);
                    match self.add_collision(cur) {
                        Ok(_) => {},
                        Err(e) => {
                            proof {
                                assert(false);
                            }
                            return Err(e);
                        },
                    }
                    return Ok((placed, acc));
                },
                Some(t) => {
                    proof {
                        assert(req == t as int && 1 <= t <= OVERLAP_BOUND);
                        lemma_mul_bounds(uxi, uxi, COORD_LIMIT as int, COORD_LIMIT as int);
                        lemma_mul_bounds(uyi, uyi, COORD_LIMIT as int, COORD_LIMIT as int);
                        lemma_mul_bounds(t as int, t as int, OVERLAP_BOUND as int, OVERLAP_BOUND as int);
                        lemma_mul_bounds(
                            (t as int) * (t as int),
                            (uxi * uxi + uyi * uyi),
                            (OVERLAP_BOUND as int) * (OVERLAP_BOUND as int),
                            2 * (COORD_LIMIT as int) * (COORD_LIMIT as int),
                        );
                    }
                    let u2 = ux * ux + uy * uy;
                    let s = (t as i128) * (t as i128) * (u2 as i128);
                    if s < (SNAP_DISTANCE as i128) * (SNAP_DISTANCE as i128) {
                        proof {
                            assert(resolve_spec(
                                polys0,
                                u,
                                cur@,
                                uxi,
                                uyi,
                                mi,
                                iter as int,
                                acc as int,
                            ) == (Resolution::Done { placed: cur@, total: acc as int }));
                        }
                        let placed = copy_poly(&cur);
                        match self.add_collision(cur) {
                            Ok(_) => {},
                            Err(e) => {
                                proof {
                                    assert(false);
                                }
                                return Err(e);
                            },
                        }
                        return Ok((placed, acc));
                    }
                    let mut moved: Vec<Node> = Vec::new();
                    let mut j: usize = 0;
                    while j < cur.len()
                        invariant
                            *self == *old(self),
                            self.wf(),
                            polys0 == self.polys(),
                            u == self.unit_size as int,
                            mi == max_iterations as int,
                            iter < max_iterations,
                            poly_ok(cur@),
                            poly_ok(collision@),
                            cur@.len() == collision@.len(),
                            3 <= cur@.len(),
                            collision@.len() <= VERTEX_LIMIT,
                            1 <= t <= OVERLAP_BOUND,
                            uxi == ux as int,
                            uyi == uy as int,
                            dir_ok(uxi, uyi),
                            t as int == max_required(polys0, cur@, uxi, uyi, u),
                            !((t as int) * (t as int) * (uxi * uxi + uyi * uyi) < SNAP_DISTANCE
                                * SNAP_DISTANCE),
                            0 <= acc <= 2 * COORD_LIMIT,
                            forall|k: int|
                                0 <= k < cur@.len() ==> (#[trigger] cur@[k]).x == collision@[k].x
                                    + acc * uxi && cur@[k].y == collision@[k].y + acc * uyi,
                            resolve_spec(polys0, u, collision@, uxi, uyi, mi, 0, 0) == resolve_spec(
                                polys0,
                                u,
                                cur@,
                                uxi,
                                uyi,
                                mi,
                                iter as int,
                                acc as int,
                            ),
                            0 <= j <= cur@.len(),
                            moved@.len() == j,
                            forall|k: int|
                                0 <= k < j ==> {
                                    &&& (#[trigger] moved@[k]).x == cur@[k].x + (t as int) * uxi
                                    &&& moved@[k].y == cur@[k].y + (t as int) * uyi
                                    &&& node_ok(moved@[k])
                                },
                        decreases cur@.len() - j,
                    {
                        let n = cur[j];
                        proof {
                            lemma_mul_bounds(
                                t as int,
                                uxi,
                                OVERLAP_BOUND as int,
                                COORD_LIMIT as int,
                            );
                            lemma_mul_bounds(
                                t as int,
                                uyi,
                                OVERLAP_BOUND as int,
                                COORD_LIMIT as int,
                            );
                        }
                        let nx = (n.x as i128) + (t as i128) * (ux as i128);
                        let ny = (n.y as i128) + (t as i128) * (uy as i128);
                        if nx < -(COORD_LIMIT as i128) || nx > COORD_LIMIT as i128 || ny < -(
                        COORD_LIMIT as i128) || ny > COORD_LIMIT as i128 {
                            proof {
                                assert(!move_in_range(cur@, uxi, uyi, t as int));
                                assert(resolve_spec(
                                    polys0,
                                    u,
                                    cur@,
                                    uxi,
                                    uyi,
                                    mi,
                                    iter as int,
                                    acc as int,
                                ) == Resolution::OutOfRange);
                            }
                            return Err(CollisionError::OutOfRange);
                        }
                        moved.push(Node { x: nx as i64, y: ny as i64 });
                        j = j + 1;
                    }
                    proof {
                        assert forall|i: int| 0 <= i < cur@.len() implies {
                            &&& -COORD_LIMIT <= (#[trigger] cur@[i]).x + (t as int) * uxi
                                <= COORD_LIMIT
                            &&& -COORD_LIMIT <= cur@[i].y + (t as int) * uyi <= COORD_LIMIT
                        } by {
                            assert(moved@[i].x == cur@[i].x + (t as int) * uxi && node_ok(
                                moved@[i],
                            ));
                            assert(moved@[i].y == cur@[i].y + (t as int) * uyi);
                        }
                        assert(move_in_range(cur@, uxi, uyi, t as int));
                        assert(moved@ =~= move_poly(cur@, uxi, uyi, t as int));
                        assert(resolve_spec(polys0, u, cur@, uxi, uyi, mi, iter as int, acc as int)
                            == resolve_spec(
                            polys0,
                            u,
                            move_poly(cur@, uxi, uyi, t as int),
                            uxi,
                            uyi,
                            mi,
                            iter as int + 1,
                            acc as int + t as int,
                        ));
                        assert((acc as int + t as int) * uxi == (acc as int) * uxi + (t as int)
                            * uxi) by (nonlinear_arith);
                        assert((acc as int + t as int) * uyi == (acc as int) * uyi + (t as int)
                            * uyi) by (nonlinear_arith);
                        assert forall|k: int| 0 <= k < moved@.len() implies (#[trigger] moved@[k]).x
                            == collision@[k].x + (acc as int + t as int) * uxi && moved@[k].y
                            == collision@[k].y + (acc as int + t as int) * uyi by {
                            assert(cur@[k].x == collision@[k].x + (acc as int) * uxi);
                        }
                        if uxi != 0 {
                            assert(node_ok(moved@[0]) && node_ok(collision@[0]));
                            lemma_factor_bound(
                                acc as int + t as int,
                                uxi,
                                2 * COORD_LIMIT as int,
                            );
                        } else {
                            assert(node_ok(moved@[0]) && node_ok(collision@[0]));
                            lemma_factor_bound(
                                acc as int + t as int,
                                uyi,
                                2 * COORD_LIMIT as int,
                            );
                        }
                    }
                    acc = acc + t;
                    cur = moved;
                    iter = iter + 1;
                },
            }
        }
        proof {
            assert(resolve_spec(polys0, u, cur@, uxi, uyi, mi, iter as int, acc as int)
                == Resolution::Exhausted);
        }
        Err(CollisionError::ResolutionExhausted)
    }

    /// Resolve a candidate polygon with the default iteration cap.  This is
    /// the recommended entry point.
    pub fn resolve_collisions(&mut self, collision: Vec<Node>, ux: i64, uy: i64) -> (r: Result<
        (Vec<Node>, i64),
        CollisionError,
    >)
        requires
            old(self).wf(),
            poly_ok(collision@),
            collision@.len() <= VERTEX_LIMIT,
            dir_ok(ux as int, uy as int),
        ensures
            final(self).wf(),
            ({
                let outcome = resolve_spec(
                    old(self).polys(),
                    old(self).unit_size as int,
                    collision@,
                    ux as int,
                    uy as int,
                    DEFAULT_MAX_ITERATIONS as int,
                    0,
                    0,
                );
                match outcome {
                    Resolution::Exhausted => r == Err::<(Vec<Node>, i64), CollisionError>(
                        CollisionError::ResolutionExhausted,
                    ) && *final(self) == *old(self),
                    Resolution::Invalid => r == Err::<(Vec<Node>, i64), CollisionError>(
                        CollisionError::InvalidShape,
                    ) && *final(self) == *old(self),
                    Resolution::OutOfRange => r == Err::<(Vec<Node>, i64), CollisionError>(
                        CollisionError::OutOfRange,
                    ) && *final(self) == *old(self),
                    Resolution::Done { placed, total } => {
                        &&& r matches Ok(ok) && ok.0@ == placed && ok.1 as int == total
                        &&& final(self).polys() == old(self).polys().push(placed)
                        &&& bounds_of(*final(self)) == widen(
                            bounds_of(*old(self)),
                            aabb_spec(placed),
                        )
                        &&& final(self).unit_size == old(self).unit_size
                    },
                }
            }),
    {
        self.resolve_collisions_recursive(collision, ux, uy, DEFAULT_MAX_ITERATIONS)
    }
}

} // verus!
