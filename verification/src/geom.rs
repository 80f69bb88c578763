use vstd::prelude::*;

verus! {

/// Largest coordinate magnitude the engine accepts, in thousandths of a
/// diagram unit.  Keeping every vertex inside this square keeps every
/// intermediate product of the collision test inside `i128`.
pub const COORD_LIMIT: i64 = 500_000;

/// A vertex of a polygon, in thousandths of a diagram unit.
#[derive(Clone, Copy, Debug, PartialEq, Eq, Structural)]
pub struct Node {
    pub x: i64,
    pub y: i64,
}

/// The vertex lies inside the supported coordinate square.
pub open spec fn node_ok(n: Node) -> bool {
    -COORD_LIMIT <= n.x <= COORD_LIMIT && -COORD_LIMIT <= n.y <= COORD_LIMIT
}

/// Every vertex of the polygon lies inside the supported coordinate square.
pub open spec fn poly_ok(p: Seq<Node>) -> bool {
    forall|i: int| 0 <= i < p.len() ==> node_ok(#[trigger] p[i])
}

/// An axis-aligned bounding box, bounds inclusive.
#[derive(Clone, Copy, Debug, PartialEq, Eq, Structural)]
pub struct Aabb {
    pub x_min: i64,
    pub x_max: i64,
    pub y_min: i64,
    pub y_max: i64,
}

/// The smallest box containing both `b` and the vertex `n`.
pub open spec fn aabb_merge(b: Aabb, n: Node) -> Aabb {
    Aabb {
        x_min: if n.x < b.x_min { n.x } else { b.x_min },
        x_max: if n.x > b.x_max { n.x } else { b.x_max },
        y_min: if n.y < b.y_min { n.y } else { b.y_min },
        y_max: if n.y > b.y_max { n.y } else { b.y_max },
    }
}

/// The axis-aligned bounding box of a non-empty vertex sequence.
pub open spec fn aabb_spec(p: Seq<Node>) -> Aabb
    recommends
        p.len() > 0,
    decreases p.len(),
{
    if p.len() <= 1 {
        Aabb { x_min: p[0].x, x_max: p[0].x, y_min: p[0].y, y_max: p[0].y }
    } else {
        aabb_merge(aabb_spec(p.drop_last()), p.last())
    }
}

/// `outer` contains `inner` in all four bounds.
pub open spec fn aabb_contains(outer: Aabb, inner: Aabb) -> bool {
    outer.x_min <= inner.x_min && outer.x_max >= inner.x_max && outer.y_min <= inner.y_min
        && outer.y_max >= inner.y_max
}

/// Every vertex of a polygon lies inside the polygon's own bounding box, and
/// each bound is attained by some vertex.
pub proof fn lemma_aabb_spec_bounds(p: Seq<Node>)
    requires
        p.len() > 0,
    ensures
        forall|i: int| 0 <= i < p.len() ==> {
            let b = aabb_spec(p);
            b.x_min <= (#[trigger] p[i]).x <= b.x_max && b.y_min <= p[i].y <= b.y_max
        },
        exists|i: int| 0 <= i < p.len() && (#[trigger] p[i]).x == aabb_spec(p).x_min,
        exists|i: int| 0 <= i < p.len() && (#[trigger] p[i]).x == aabb_spec(p).x_max,
        exists|i: int| 0 <= i < p.len() && (#[trigger] p[i]).y == aabb_spec(p).y_min,
        exists|i: int| 0 <= i < p.len() && (#[trigger] p[i]).y == aabb_spec(p).y_max,
    decreases p.len(),
{
    if p.len() > 1 {
        lemma_aabb_spec_bounds(p.drop_last());
        assert forall|i: int| 0 <= i < p.len() implies {
            let b = aabb_spec(p);
            b.x_min <= (#[trigger] p[i]).x <= b.x_max && b.y_min <= p[i].y <= b.y_max
        } by {
            if i < p.len() - 1 {
                assert(p.drop_last()[i] == p[i]);
            }
        }
    }
}

/// A polygon whose vertices are in range has its bounding box in range.
pub proof fn lemma_aabb_spec_in_range(p: Seq<Node>)
    requires
        p.len() > 0,
        poly_ok(p),
    ensures
        -COORD_LIMIT <= aabb_spec(p).x_min <= COORD_LIMIT,
        -COORD_LIMIT <= aabb_spec(p).x_max <= COORD_LIMIT,
        -COORD_LIMIT <= aabb_spec(p).y_min <= COORD_LIMIT,
        -COORD_LIMIT <= aabb_spec(p).y_max <= COORD_LIMIT,
        aabb_spec(p).x_min <= aabb_spec(p).x_max,
        aabb_spec(p).y_min <= aabb_spec(p).y_max,
    decreases p.len(),
{
    if p.len() > 1 {
        assert(poly_ok(p.drop_last())) by {
            assert(forall|i: int|
                0 <= i < p.len() - 1 ==> p.drop_last()[i] == #[trigger] p[i]);
        }
        lemma_aabb_spec_in_range(p.drop_last());
    }
}

/// Compute the axis-aligned bounding box of a polygon, or `None` for an
/// empty vertex list.
pub fn aabb(nodes: &Vec<Node>) -> (r: Option<Aabb>)
    ensures
        nodes@.len() == 0 ==> r is None,
        nodes@.len() > 0 ==> r == Some(aabb_spec(nodes@)),
{
    if nodes.len() == 0 {
        return None;
    }
    let first = nodes[0];
    let mut b = Aabb { x_min: first.x, x_max: first.x, y_min: first.y, y_max: first.y };
    let mut i: usize = 1;
    assert(nodes@.take(1) =~= seq![nodes@[0]]);
    while i < nodes.len()
        invariant
            1 <= i <= nodes@.len(),
            b == aabb_spec(nodes@.take(i as int)),
        decreases nodes@.len() - i,
    {
        let n = nodes[i];
        b = Aabb {
            x_min: if n.x < b.x_min { n.x } else { b.x_min },
            x_max: if n.x > b.x_max { n.x } else { b.x_max },
            y_min: if n.y < b.y_min { n.y } else { b.y_min },
            y_max: if n.y > b.y_max { n.y } else { b.y_max },
        };
        proof {
            assert(nodes@.take(i + 1).drop_last() =~= nodes@.take(i as int));
            assert(nodes@.take(i + 1).last() == nodes@[i as int]);
        }
        i = i + 1;
    }
    proof {
        assert(nodes@.take(nodes@.len() as int) =~= nodes@);
    }
    Some(b)
}

/// Integer division truncated toward zero, as machine division computes it.
pub open spec fn trunc_div(a: int, b: int) -> int
    recommends
        b != 0,
{
    let q = abs_int(a) / abs_int(b);
    if (a < 0) != (b < 0) {
        -q
    } else {
        q
    }
}

/// Absolute value of a number.
pub open spec fn abs_int(a: int) -> int {
    if a < 0 {
        -a
    } else {
        a
    }
}

/// Divide, truncating toward zero.
fn div_trunc_i128(a: i128, b: i128) -> (r: i128)
    requires
        b != 0,
        -0x8000_0000_0000_0000_0000_0000_0000_0000i128 < a,
        -0x8000_0000_0000_0000_0000_0000_0000_0000i128 < b,
    ensures
        r == trunc_div(a as int, b as int),
        abs_int(r as int) <= abs_int(a as int),
{
    let aa = if a < 0 {
        -a
    } else {
        a
    };
    let ab = if b < 0 {
        -b
    } else {
        b
    };
    proof {
        assert(0 <= aa / ab <= aa) by (nonlinear_arith)
            requires
                aa >= 0,
                ab >= 1,
        ;
    }
    let q = aa / ab;
    if (a < 0) != (b < 0) {
        -q
    } else {
        q
    }
}

/// One vertex rotated about `center` by the angle whose cosine and sine
/// are `c / denom` and `s / denom`, with each coordinate of the result
/// truncated toward zero.
pub open spec fn rotated_node(n: Node, center: Node, c: int, s: int, denom: int) -> Node
    recommends
        denom >= 1,
{
    let dx = n.x - center.x;
    let dy = n.y - center.y;
    Node {
        x: (center.x + trunc_div(dx * c - dy * s, denom)) as i64,
        y: (center.y + trunc_div(dx * s + dy * c, denom)) as i64,
    }
}

/// Rotate a polygon around a center point.
///
/// The rotation angle is given by its cosine and sine as the fractions
/// `cos_num / denom` and `sin_num / denom` (a positive angle turns
/// counterclockwise); each rotated coordinate is truncated toward zero.
pub fn rotate_polygon(polygon: Vec<Node>, center_point: Node, cos_num: i64, sin_num: i64, denom: i64) -> (r:
    Vec<Node>)
    requires
        poly_ok(polygon@),
        node_ok(center_point),
        1 <= denom <= COORD_LIMIT,
        -denom <= cos_num <= denom,
        -denom <= sin_num <= denom,
    ensures
        r@.len() == polygon@.len(),
        forall|i: int|
            0 <= i < polygon@.len() ==> r@[i] == rotated_node(
                #[trigger] polygon@[i],
                center_point,
                cos_num as int,
                sin_num as int,
                denom as int,
            ),
{
    let mut r: Vec<Node> = Vec::new();
    let mut i: usize = 0;
    while i < polygon.len()
        invariant
            poly_ok(polygon@),
            node_ok(center_point),
            1 <= denom <= COORD_LIMIT,
            -denom <= cos_num <= denom,
            -denom <= sin_num <= denom,
            0 <= i <= polygon@.len(),
            r@.len() == i,
            forall|k: int|
                0 <= k < i ==> r@[k] == rotated_node(
                    #[trigger] polygon@[k],
                    center_point,
                    cos_num as int,
                    sin_num as int,
                    denom as int,
                ),
        decreases polygon@.len() - i,
    {
        let n = polygon[i];
        let dx = (n.x - center_point.x) as i128;
        let dy = (n.y - center_point.y) as i128;
        proof {
            crate::sat::lemma_mul_bounds(dx as int, cos_num as int, 1_000_000, 500_000);
            crate::sat::lemma_mul_bounds(dy as int, sin_num as int, 1_000_000, 500_000);
            crate::sat::lemma_mul_bounds(dx as int, sin_num as int, 1_000_000, 500_000);
            crate::sat::lemma_mul_bounds(dy as int, cos_num as int, 1_000_000, 500_000);
        }
        let rx = div_trunc_i128(dx * (cos_num as i128) - dy * (sin_num as i128), denom as i128);
        let ry = div_trunc_i128(dx * (sin_num as i128) + dy * (cos_num as i128), denom as i128);
        let node = Node { x: ((center_point.x as i128) + rx) as i64, y: ((center_point.y as i128)
            + ry) as i64 };
        r.push(node);
        i = i + 1;
    }
    r
}

/// The point where the segment through `n0` and `n1` crosses the vertical
/// line `x = v`, with the y coordinate computed by truncating division.
///
/// A vertical segment yields its own first endpoint when it lies on the
/// line, and `None` otherwise; a non-vertical segment always yields a
/// point (the line through the two endpoints is extended as needed).
pub fn intersection(n0: Node, n1: Node, v: i64) -> (r: Option<Node>)
    requires
        node_ok(n0),
        node_ok(n1),
        -COORD_LIMIT <= v <= COORD_LIMIT,
    ensures
        n0.x == n1.x && v == n0.x ==> r == Some(n0),
        n0.x == n1.x && v != n0.x ==> r is None,
        n0.x != n1.x ==> r == Some(
            Node {
                x: v,
                y: (n0.y + trunc_div((n1.y - n0.y) * (v - n0.x), n1.x - n0.x)) as i64,
            },
        ),
{
    if n0.x == n1.x {
        if v == n0.x {
            Some(n0)
        } else {
            None
        }
    } else {
        proof {
            crate::sat::lemma_mul_bounds(n1.y - n0.y, v - n0.x, 1_000_000, 1_000_000);
        }
        let num = ((n1.y - n0.y) as i128) * ((v - n0.x) as i128);
        let den = (n1.x - n0.x) as i128;
        let q = div_trunc_i128(num, den);
        let y = (n0.y as i128) + q;
        Some(Node { x: v, y: y as i64 })
    }
}

} // verus!
