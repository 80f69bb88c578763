use vstd::prelude::*;
use std::collections::HashMap;
use crate::geom::{Aabb, COORD_LIMIT};

verus! {

/// Largest cell index either axis can produce: with coordinates bounded by
/// `COORD_LIMIT` and a unit size of at least one, indices stay below this.
pub const CELL_BOUND: i64 = 1_000_000;

/// Cell index of a coordinate along one axis.  Coordinates at or below zero
/// land in cell zero, mirroring a saturating conversion; positive ones in
/// the cell `c / unit`, rounded down.
pub open spec fn floor_cell(c: int, unit: int) -> int
    recommends
        unit >= 1,
{
    if c <= 0 {
        0
    } else {
        c / unit
    }
}

/// Cell index of a coordinate along one axis, rounded up.
pub open spec fn ceil_cell(c: int, unit: int) -> int
    recommends
        unit >= 1,
{
    if c <= 0 {
        0
    } else {
        (c + unit - 1) / unit
    }
}

/// The inclusive rectangle of grid cells a bounding box spans:
/// `(x_first, x_last, y_first, y_last)`.
pub open spec fn cells_of(b: Aabb, unit: int) -> (int, int, int, int) {
    (
        floor_cell(b.x_min as int, unit),
        ceil_cell(b.x_max as int, unit),
        floor_cell(b.y_min as int, unit),
        ceil_cell(b.y_max as int, unit),
    )
}

/// The cell rectangles of two bounding boxes intersect.  Because the
/// rectangles are inclusive, this holds exactly when the boxes share a
/// grid cell.
pub open spec fn cell_ranges_overlap(b1: Aabb, b2: Aabb, unit: int) -> bool {
    let (ax0, ax1, ay0, ay1) = cells_of(b1, unit);
    let (bx0, bx1, by0, by1) = cells_of(b2, unit);
    ax0 <= bx1 && bx0 <= ax1 && ay0 <= by1 && by0 <= ay1
}

/// Rounding down never exceeds rounding up, and both stay in range for
/// in-range coordinates.
pub proof fn lemma_cell_bounds(c: int, unit: int)
    requires
        1 <= unit <= COORD_LIMIT,
        -COORD_LIMIT <= c <= COORD_LIMIT,
    ensures
        0 <= floor_cell(c, unit) <= CELL_BOUND,
        0 <= ceil_cell(c, unit) <= CELL_BOUND,
        floor_cell(c, unit) <= ceil_cell(c, unit),
{
    if c > 0 {
        assert(0 <= c / unit <= c && c / unit <= (c + unit - 1) / unit && (c + unit - 1) / unit <= c
            + unit - 1) by (nonlinear_arith)
            requires
                0 < c,
                1 <= unit,
        ;
    }
}

/// A lower coordinate never lands in a later cell.
pub proof fn lemma_cell_ordered(c1: int, c2: int, unit: int)
    requires
        1 <= unit,
        c1 <= c2,
    ensures
        floor_cell(c1, unit) <= floor_cell(c2, unit),
        ceil_cell(c1, unit) <= ceil_cell(c2, unit),
        floor_cell(c1, unit) <= ceil_cell(c2, unit),
{
    if c1 > 0 {
        assert(c1 / unit <= c2 / unit && c1 / unit <= (c2 + unit - 1) / unit && (c1 + unit - 1)
            / unit <= (c2 + unit - 1) / unit) by (nonlinear_arith)
            requires
                0 < c1 <= c2,
                1 <= unit,
        ;
    } else if c2 > 0 {
        assert(0 <= c2 / unit && 0 <= (c2 + unit - 1) / unit) by (nonlinear_arith)
            requires
                0 < c2,
                1 <= unit,
        ;
    }
}

/// Compute the cell index of a coordinate, rounded down.
pub fn cell_floor(c: i64, unit: i64) -> (r: u32)
    requires
        1 <= unit <= COORD_LIMIT,
        -COORD_LIMIT <= c <= COORD_LIMIT,
    ensures
        r == floor_cell(c as int, unit as int),
        r <= CELL_BOUND,
{
    proof {
        lemma_cell_bounds(c as int, unit as int);
    }
    if c <= 0 {
        0
    } else {
        (c / unit) as u32
    }
}

/// Compute the cell index of a coordinate, rounded up.
pub fn cell_ceil(c: i64, unit: i64) -> (r: u32)
    requires
        1 <= unit <= COORD_LIMIT,
        -COORD_LIMIT <= c <= COORD_LIMIT,
    ensures
        r == ceil_cell(c as int, unit as int),
        r <= CELL_BOUND,
{
    proof {
        lemma_cell_bounds(c as int, unit as int);
    }
    if c <= 0 {
        0
    } else {
        ((c + unit - 1) / unit) as u32
    }
}

/// The single hash key of a grid cell.
pub open spec fn cell_key(cx: int, cy: int) -> int {
    cx * 0x1_0000_0000 + cy
}

/// Distinct cells (with in-range indices) have distinct keys.
pub proof fn lemma_cell_key_injective(ax: int, ay: int, bx: int, by: int)
    requires
        0 <= ax < 0x1_0000_0000,
        0 <= ay < 0x1_0000_0000,
        0 <= bx < 0x1_0000_0000,
        0 <= by < 0x1_0000_0000,
        cell_key(ax, ay) == cell_key(bx, by),
    ensures
        ax == bx && ay == by,
{
}

/// A uniform spatial grid: each cell holds the identifiers of the
/// registered polygons whose bounding box spans that cell.
pub struct GridIndex {
    pub cells: HashMap<u64, Vec<usize>>,
}

impl GridIndex {
    /// The identifiers recorded for one cell, in insertion order.  Cells
    /// outside the index range the grid can ever write are empty.
    pub open spec fn ids_at(self, cx: int, cy: int) -> Seq<usize> {
        if 0 <= cx <= CELL_BOUND && 0 <= cy <= CELL_BOUND && self.cells@.contains_key(
            cell_key(cx, cy) as u64,
        ) {
            self.cells@[cell_key(cx, cy) as u64]@
        } else {
            Seq::empty()
        }
    }

    /// Create an empty grid.
    pub fn new() -> (r: GridIndex)
        ensures
            forall|cx: int, cy: int| r.ids_at(cx, cy) == Seq::<usize>::empty(),
    {
        GridIndex { cells: HashMap::new() }
    }

    /// Append `id` to one cell.
    fn push_to_cell(&mut self, cx: u32, cy: u32, id: usize)
        requires
            cx <= CELL_BOUND,
            cy <= CELL_BOUND,
        ensures
            final(self).ids_at(cx as int, cy as int) == old(self).ids_at(cx as int, cy as int).push(
                id,
            ),
            forall|ax: int, ay: int|
                !(ax == cx as int && ay == cy as int) ==> final(self).ids_at(ax, ay) == old(
                    self,
                ).ids_at(ax, ay),
    {
        let key: u64 = (cx as u64) * 0x1_0000_0000 + (cy as u64);
        assert(key == cell_key(cx as int, cy as int));
        let mut v: Vec<usize> = match self.cells.remove(&key) {
            Some(v) => v,
            None => Vec::new(),
        };
        v.push(id);
        self.cells.insert(key, v);
        proof {
            assert forall|ax: int, ay: int|
                !(ax == cx as int && ay == cy as int) implies final(self).ids_at(ax, ay) == old(
                self,
            ).ids_at(ax, ay) by {
                if 0 <= ax <= CELL_BOUND && 0 <= ay <= CELL_BOUND {
                    if cell_key(ax, ay) == cell_key(cx as int, cy as int) {
                        lemma_cell_key_injective(ax, ay, cx as int, cy as int);
                    }
                    assert(cell_key(ax, ay) as u64 != key);
                }
            }
        }
    }

    /// Record `id` in every cell of an inclusive cell rectangle.
    pub fn insert_rect(&mut self, x0: u32, x1: u32, y0: u32, y1: u32, id: usize)
        requires
            x0 <= x1,
            y0 <= y1,
            x1 <= CELL_BOUND,
            y1 <= CELL_BOUND,
        ensures
            forall|ax: int, ay: int|
                (x0 <= ax <= x1 && y0 <= ay <= y1) ==> final(self).ids_at(ax, ay) == old(
                    self,
                ).ids_at(ax, ay).push(id),
            forall|ax: int, ay: int|
                !(x0 <= ax <= x1 && y0 <= ay <= y1) ==> final(self).ids_at(ax, ay) == old(
                    self,
                ).ids_at(ax, ay),
    {
        let mut cx: u32 = x0;
        while cx <= x1
            invariant
                x0 <= cx <= x1 + 1,
                x1 <= CELL_BOUND,
                y0 <= y1,
                y1 <= CELL_BOUND,
                forall|ax: int, ay: int|
                    (x0 <= ax < cx && y0 <= ay <= y1) ==> self.ids_at(ax, ay) == old(self).ids_at(
                        ax,
                        ay,
                    ).push(id),
                forall|ax: int, ay: int|
                    !(x0 <= ax < cx && y0 <= ay <= y1) ==> self.ids_at(ax, ay) == old(self).ids_at(
                        ax,
                        ay,
                    ),
            decreases x1 + 1 - cx,
        {
            let mut cy: u32 = y0;
            while cy <= y1
                invariant
                    x0 <= cx <= x1,
                    x1 <= CELL_BOUND,
                    y0 <= cy <= y1 + 1,
                    y1 <= CELL_BOUND,
                    forall|ax: int, ay: int|
                        ((x0 <= ax < cx && y0 <= ay <= y1) || (ax == cx && y0 <= ay < cy))
                            ==> self.ids_at(ax, ay) == old(self).ids_at(ax, ay).push(id),
                    forall|ax: int, ay: int|
                        !((x0 <= ax < cx && y0 <= ay <= y1) || (ax == cx && y0 <= ay < cy))
                            ==> self.ids_at(ax, ay) == old(self).ids_at(ax, ay),
                decreases y1 + 1 - cy,
            {
                self.push_to_cell(cx, cy, id);
                cy = cy + 1;
            }
            cx = cx + 1;
        }
    }

    /// The identifiers recorded for one cell, or `None` when the cell was
    /// never written.
    pub fn ids_in_cell(&self, cx: u32, cy: u32) -> (r: Option<&Vec<usize>>)
        requires
            cx <= CELL_BOUND,
            cy <= CELL_BOUND,
        ensures
            match r {
                Some(v) => v@ == self.ids_at(cx as int, cy as int),
                None => self.ids_at(cx as int, cy as int) == Seq::<usize>::empty(),
            },
    {
        let key: u64 = (cx as u64) * 0x1_0000_0000 + (cy as u64);
        assert(key == cell_key(cx as int, cy as int));
        self.cells.get(&key)
    }
}

} // verus!
