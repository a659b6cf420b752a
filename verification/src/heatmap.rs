//! Heatmap engine: turns a map's bounding box and the scoring oracle's
//! per-cell results into a dense 2-D grid of compatibility scores.
//!
//! Scores travel through this module as the raw bit pattern of a
//! single-precision value (`u32`); the bit pattern of the neutral default
//! score (zero) is `0`. The boundary that talks to the store converts.

use vstd::prelude::*;

verus! {

/// Side length, in map length units (centimeters), of one heatmap cell.
pub const GRANULARITY: i32 = 10;

/// Minimal axis-aligned rectangle enclosing a map's usable geometry.
#[derive(Clone, Copy, Debug, PartialEq, Eq, Structural)]
pub struct BoundingBox {
    /// The lowest x value in the geometry.
    pub x_min: i32,
    /// The lowest y value in the geometry.
    pub y_min: i32,
    /// The highest x value in the geometry.
    pub x_max: i32,
    /// The highest y value in the geometry.
    pub y_max: i32,
}

impl BoundingBox {
    /// A bounding box never has its maximum below its minimum on either
    /// axis; degenerate (zero-area) boxes are legal.
    pub open spec fn wf(self) -> bool {
        self.x_min <= self.x_max && self.y_min <= self.y_max
    }
}

/// One discretized cell's compatibility score, as delivered by the scoring
/// oracle. `x` and `y` are grid indices (`x` counts columns, `y` rows), not
/// absolute map coordinates.
#[derive(Clone, Copy, Debug, PartialEq, Eq, Structural)]
pub struct ScoredPoint {
    /// Column index of the scored cell.
    pub x: i32,
    /// Row index of the scored cell.
    pub y: i32,
    /// Compatibility score of the cell (bit pattern; higher value of the
    /// encoded score = more suitable).
    pub score: u32,
}

/// The failure taxonomy of the core: either an external fetch failed, or the
/// fetched data contradicts the domain's invariants.
#[derive(Clone, Copy, Debug, PartialEq, Eq, Structural)]
pub enum CoreError {
    /// An external fetch failed (connectivity, malformed row shape). Raised
    /// by the layer that performs the round-trips, never by this crate's
    /// computations.
    QueryFailure,
    /// A scored point addresses a cell outside the computed grid.
    DomainInconsistency,
}

/// Ceiling division, for a non-negative dividend and a positive divisor.
pub open spec fn ceil_div(n: int, d: int) -> int {
    (n + d - 1) / d
}

/// Number of rows of the grid for bounding box `b`: one row per started
/// `GRANULARITY` units of the box's height.
pub open spec fn grid_rows(b: BoundingBox) -> int {
    ceil_div(b.y_max - b.y_min, GRANULARITY as int)
}

/// Number of columns of the grid for bounding box `b`: one column per
/// started `GRANULARITY` units of the box's width.
pub open spec fn grid_cols(b: BoundingBox) -> int {
    ceil_div(b.x_max - b.x_min, GRANULARITY as int)
}

/// The point addresses a cell of a grid with the given dimensions.
pub open spec fn in_grid(p: ScoredPoint, rows: int, cols: int) -> bool {
    0 <= p.x as int && (p.x as int) < cols && 0 <= p.y as int && (p.y as int) < rows
}

/// Every delivered point addresses a cell of the grid.
pub open spec fn all_in_grid(pts: Seq<ScoredPoint>, rows: int, cols: int) -> bool {
    forall|i: int| 0 <= i < pts.len() ==> in_grid(#[trigger] pts[i], rows, cols)
}

/// The value of cell `(x, y)` after rasterizing `pts` in delivery order:
/// the score of the last point addressing the cell, or `0` where none does.
/// The grid is a projection of the most recent scored value per cell, not an
/// accumulator.
pub open spec fn cell_value(pts: Seq<ScoredPoint>, x: int, y: int) -> u32
    decreases pts.len(),
{
    if pts.len() == 0 {
        0u32
    } else if pts.last().x as int == x && pts.last().y as int == y {
        pts.last().score
    } else {
        cell_value(pts.drop_last(), x, y)
    }
}

/// `grid` is the finished heatmap for box `b` and delivered points `pts`:
/// `grid_rows(b)` rows of `grid_cols(b)` columns each, every cell holding
/// the last score delivered for it.
pub open spec fn is_heatmap_for(grid: Seq<Vec<u32>>, pts: Seq<ScoredPoint>, b: BoundingBox) -> bool {
    &&& grid.len() == grid_rows(b)
    &&& (forall|yi: int| 0 <= yi < grid.len() ==> (#[trigger] grid[yi])@.len() == grid_cols(b))
    &&& (forall|yi: int, xi: int|
        0 <= yi < grid_rows(b) && 0 <= xi < grid_cols(b)
            ==> #[trigger] grid[yi]@[xi] == cell_value(pts, xi, yi))
}

/// With no points delivered, every cell keeps the neutral default.
pub proof fn lemma_default_fill(pts: Seq<ScoredPoint>, x: int, y: int)
    requires
        pts.len() == 0,
    ensures
        cell_value(pts, x, y) == 0,
{
}

/// The point delivered last for a cell determines that cell, whatever was
/// delivered for it before.
pub proof fn lemma_last_write_wins(pts: Seq<ScoredPoint>, p: ScoredPoint)
    ensures
        cell_value(pts.push(p), p.x as int, p.y as int) == p.score,
{
    assert(pts.push(p).last() == p);
}

/// A delivery addressing one cell leaves every other cell unchanged.
pub proof fn lemma_other_cells_unchanged(pts: Seq<ScoredPoint>, p: ScoredPoint, x: int, y: int)
    requires
        p.x as int != x || p.y as int != y,
    ensures
        cell_value(pts.push(p), x, y) == cell_value(pts, x, y),
{
    assert(pts.push(p).last() == p);
    assert(pts.push(p).drop_last() =~= pts);
}

/// A degenerate box yields a grid with zero columns or zero rows.
pub proof fn lemma_degenerate_box(b: BoundingBox)
    requires
        b.wf(),
    ensures
        b.x_min == b.x_max ==> grid_cols(b) == 0,
        b.y_min == b.y_max ==> grid_rows(b) == 0,
{
}

/// Score of cell `(x, y)` under last-write-wins: the score of the point
/// delivered last for that cell, or `0` where the cell was never scored.
pub fn score_at(points: &Vec<ScoredPoint>, x: usize, y: usize) -> (r: u32)
    ensures
        r == cell_value(points@, x as int, y as int),
{
    let mut i: usize = points.len();
    proof {
        assert(points@.take(points@.len() as int) =~= points@);
    }
    while i > 0
        invariant
            i <= points.len(),
            cell_value(points@, x as int, y as int)
                == cell_value(points@.take(i as int), x as int, y as int),
        decreases i,
    {
        let p = points[i - 1];
        proof {
            assert(points@.take(i as int).last() == points@[i as int - 1]);
            assert(points@.take(i as int).drop_last() =~= points@.take(i as int - 1));
        }
        if p.x >= 0 && p.y >= 0 && p.x as usize == x && p.y as usize == y {
            return p.score;
        }
        i = i - 1;
    }
    proof {
        assert(points@.take(0) =~= Seq::<ScoredPoint>::empty());
    }
    0
}

/// Generates a heatmap signaling ideal locations for planting the plant.
///
/// `bbox` is the map's bounding box as fetched from the store; `points` are
/// the scoring oracle's results for that box at `GRANULARITY` resolution, in
/// delivery order. The grid has one row per started `GRANULARITY` units of
/// the box's height and one column per started `GRANULARITY` units of its
/// width; a cell holds the score delivered last for it, or the neutral
/// default `0` where the oracle left it unscored.
///
/// # Errors
/// * `CoreError::DomainInconsistency` if and only if some point addresses a
///   cell outside the computed grid: the whole request is rejected, no
///   partial grid is returned.
pub fn heatmap(bbox: &BoundingBox, points: &Vec<ScoredPoint>) -> (r: Result<Vec<Vec<u32>>, CoreError>)
    requires
        bbox.wf(),
    ensures
        match r {
            Ok(grid) => {
                &&& all_in_grid(points@, grid_rows(*bbox), grid_cols(*bbox))
                &&& is_heatmap_for(grid@, points@, *bbox)
            },
            Err(e) => {
                &&& e == CoreError::DomainInconsistency
                &&& !all_in_grid(points@, grid_rows(*bbox), grid_cols(*bbox))
            },
        },
{
    let g: u64 = GRANULARITY as u64;
    let w: u64 = (bbox.x_max as i64 - bbox.x_min as i64) as u64;
    let h: u64 = (bbox.y_max as i64 - bbox.y_min as i64) as u64;
    let cols: usize = ((w + g - 1) / g) as usize;
    let rows: usize = ((h + g - 1) / g) as usize;
    proof {
        assert(cols as int == grid_cols(*bbox));
        assert(rows as int == grid_rows(*bbox));
    }

    let mut k: usize = 0;
    while k < points.len()
        invariant
            k <= points.len(),
            cols as int == grid_cols(*bbox),
            rows as int == grid_rows(*bbox),
            forall|j: int| 0 <= j < k ==> in_grid(#[trigger] points@[j], rows as int, cols as int),
        decreases points.len() - k,
    {
        let p = points[k];
        if p.x < 0 || p.y < 0 || p.x as usize >= cols || p.y as usize >= rows {
            proof {
                assert(!in_grid(points@[k as int], rows as int, cols as int));
            }
            return Err(CoreError::DomainInconsistency);
        }
        k = k + 1;
    }

    let mut grid: Vec<Vec<u32>> = Vec::new();
    let mut y: usize = 0;
    while y < rows
        invariant
            y <= rows,
            grid@.len() == y,
            forall|yi: int| 0 <= yi < y ==> (#[trigger] grid@[yi])@.len() == cols as int,
            forall|yi: int, xi: int|
                0 <= yi < y && 0 <= xi < cols
                    ==> #[trigger] grid@[yi]@[xi] == cell_value(points@, xi, yi),
        decreases rows - y,
    {
        let mut row: Vec<u32> = Vec::new();
        let mut x: usize = 0;
        while x < cols
            invariant
                x <= cols,
                row@.len() == x,
                forall|xi: int| 0 <= xi < x ==> #[trigger] row@[xi] == cell_value(points@, xi, y as int),
            decreases cols - x,
        {
            let s = score_at(points, x, y);
            row.push(s);
            x = x + 1;
        }
        grid.push(row);
        y = y + 1;
    }
    Ok(grid)
}

} // verus!
