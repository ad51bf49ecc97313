use vstd::prelude::*;
use vstd::arithmetic::div_mod::{
    lemma_div_denominator, lemma_div_is_ordered, lemma_div_pos_is_pos, lemma_fundamental_div_mod,
    lemma_fundamental_div_mod_converse, lemma_mod_pos_bound,
};
use vstd::set_lib::lemma_map_size_bound;
use crate::raster::{Grid, Raster};

verus! {

/// The two classes of pixel that a binary raster holds.
#[derive(Clone, Copy, Debug, PartialEq, Eq, Structural)]
pub enum Color {
    White,
    Black,
}

impl Color {
    /// The intensity that stands for this color: 255 for white, 0 for black.
    pub open spec fn level(self) -> u8 {
        match self {
            Color::White => 255u8,
            Color::Black => 0u8,
        }
    }

    pub fn value(self) -> (v: u8)
        ensures
            v == self.level(),
    {
        match self {
            Color::White => 255,
            Color::Black => 0,
        }
    }
}

/// The cell `(cx, cy)` of the grid of `box_size` by `box_size` cells anchored
/// at the origin holds a pixel of intensity `target`. A cell that reaches past
/// the raster is judged by the pixels it has.
pub open spec fn cell_occupied(g: Grid, box_size: int, target: u8, cx: int, cy: int) -> bool {
    exists|x: int, y: int|
        g.contains(x, y) && x / box_size == cx && y / box_size == cy && #[trigger] g.at(x, y)
            == target
}

/// The coordinates of the occupied cells.
pub open spec fn occupied_cells(g: Grid, box_size: int, target: u8) -> Set<(int, int)> {
    Set::new(|c: (int, int)| cell_occupied(g, box_size, target, c.0, c.1))
}

/// The box count: how many cells are occupied.
pub open spec fn box_count(g: Grid, box_size: int, target: u8) -> nat {
    occupied_cells(g, box_size, target).len()
}

/// How many cells of side `box_size` it takes to cover `extent` pixels.
pub open spec fn cells_along(extent: nat, box_size: int) -> nat {
    if extent == 0 {
        0
    } else {
        ((extent - 1) / box_size + 1) as nat
    }
}

/// The cell `c` comes before `(cx, cy)` when the cells are walked row by row.
pub open spec fn walked_before(c: (int, int), cx: int, cy: int) -> bool {
    c.1 < cy || (c.1 == cy && c.0 < cx)
}

/// The occupied cells that come before `(cx, cy)`.
pub open spec fn occupied_before(g: Grid, box_size: int, target: u8, cx: int, cy: int) -> Set<
    (int, int),
> {
    Set::new(
        |c: (int, int)| cell_occupied(g, box_size, target, c.0, c.1) && walked_before(c, cx, cy),
    )
}

/// A coordinate lies in cell `c` exactly when it lies between `c * b` and the
/// next multiple of `b`.
pub proof fn lemma_cell_of(x: int, b: int, c: int)
    requires
        b > 0,
    ensures
        x / b == c <==> c * b <= x < c * b + b,
{
    lemma_fundamental_div_mod(x, b);
    vstd::arithmetic::div_mod::lemma_mod_bound(x, b);
    assert(b * (x / b) == (x / b) * b) by (nonlinear_arith);
    if c * b <= x < c * b + b {
        lemma_fundamental_div_mod_converse(x, b, c, x - c * b);
    }
}

/// Every pixel column falls into one of the `cells_along` cell columns.
pub proof fn lemma_cells_cover(extent: nat, b: int, x: int)
    requires
        b > 0,
        0 <= x < extent,
    ensures
        0 <= x / b < cells_along(extent, b),
{
    lemma_div_pos_is_pos(x, b);
    lemma_div_is_ordered(x, extent - 1, b);
    lemma_div_pos_is_pos(extent - 1, b);
}

/// Each of the `cells_along` cells begins inside the extent.
pub proof fn lemma_cells_touch(extent: nat, b: int, c: int)
    requires
        b > 0,
        0 <= c < cells_along(extent, b),
    ensures
        0 <= c * b < extent,
        cells_along(extent, b) <= extent,
{
    let last = (extent - 1) / b;
    lemma_cell_of(extent - 1, b, last);
    assert(c * b <= last * b) by (nonlinear_arith)
        requires
            c <= last,
            b > 0,
    ;
    assert(0 <= c * b) by (nonlinear_arith)
        requires
            0 <= c,
            b > 0,
    ;
    assert(last <= last * b) by (nonlinear_arith)
        requires
            0 <= last,
            b > 0,
    ;
}

/// An occupied cell lies inside the grid that covers the raster.
pub proof fn lemma_occupied_in_grid(g: Grid, b: int, t: u8, cx: int, cy: int)
    requires
        b > 0,
        cell_occupied(g, b, t, cx, cy),
    ensures
        0 <= cx < cells_along(g.width, b),
        0 <= cy < cells_along(g.height, b),
{
    let (x, y) = choose|x: int, y: int|
        g.contains(x, y) && x / b == cx && y / b == cy && #[trigger] g.at(x, y) == t;
    lemma_cells_cover(g.width, b, x);
    lemma_cells_cover(g.height, b, y);
}

/// Walking one cell further adds that cell if it is occupied, and nothing else.
proof fn lemma_walk_step(g: Grid, b: int, t: u8, cx: int, cy: int)
    ensures
        !occupied_before(g, b, t, cx, cy).contains((cx, cy)),
        occupied_before(g, b, t, cx + 1, cy) == (if cell_occupied(g, b, t, cx, cy) {
            occupied_before(g, b, t, cx, cy).insert((cx, cy))
        } else {
            occupied_before(g, b, t, cx, cy)
        }),
{
    if cell_occupied(g, b, t, cx, cy) {
        assert(occupied_before(g, b, t, cx + 1, cy) =~= occupied_before(g, b, t, cx, cy).insert(
            (cx, cy),
        ));
    } else {
        assert(occupied_before(g, b, t, cx + 1, cy) =~= occupied_before(g, b, t, cx, cy));
    }
}

/// Past the last cell of a row nothing is occupied: the walk goes on at the
/// start of the next row.
proof fn lemma_walk_row_end(g: Grid, b: int, t: u8, cy: int)
    requires
        b > 0,
    ensures
        occupied_before(g, b, t, cells_along(g.width, b) as int, cy) == occupied_before(
            g,
            b,
            t,
            0,
            cy + 1,
        ),
{
    let cols = cells_along(g.width, b) as int;
    assert forall|c: (int, int)| cell_occupied(g, b, t, c.0, c.1) implies 0 <= c.0 < cols by {
        lemma_occupied_in_grid(g, b, t, c.0, c.1);
    }
    assert(occupied_before(g, b, t, cols, cy) =~= occupied_before(g, b, t, 0, cy + 1));
}

/// The walk starts with no cell and ends with all the occupied ones.
proof fn lemma_walk_ends(g: Grid, b: int, t: u8)
    requires
        b > 0,
    ensures
        occupied_before(g, b, t, 0, 0) == Set::<(int, int)>::empty(),
        occupied_before(g, b, t, 0, cells_along(g.height, b) as int) == occupied_cells(g, b, t),
{
    let rows = cells_along(g.height, b) as int;
    assert forall|c: (int, int)| cell_occupied(g, b, t, c.0, c.1) implies 0 <= c.0 && 0 <= c.1
        < rows by {
        lemma_occupied_in_grid(g, b, t, c.0, c.1);
    }
    assert(occupied_before(g, b, t, 0, 0) =~= Set::<(int, int)>::empty());
    assert(occupied_before(g, b, t, 0, rows) =~= occupied_cells(g, b, t));
}

/// What the walk has met so far is finite, and no more than the cells walked.
proof fn lemma_walk_finite(g: Grid, b: int, t: u8, cx: int, cy: int)
    requires
        b > 0,
        0 <= cy,
        0 <= cx <= cells_along(g.width, b),
    ensures
        occupied_before(g, b, t, cx, cy).finite(),
        occupied_before(g, b, t, cx, cy).len() <= cy * cells_along(g.width, b) + cx,
    decreases cy, cx,
{
    let cols = cells_along(g.width, b) as int;
    if cx > 0 {
        lemma_walk_finite(g, b, t, cx - 1, cy);
        lemma_walk_step(g, b, t, cx - 1, cy);
    } else if cy > 0 {
        lemma_walk_finite(g, b, t, cols, cy - 1);
        lemma_walk_row_end(g, b, t, cy - 1);
        assert((cy - 1) * cols + cols == cy * cols) by (nonlinear_arith);
    } else {
        lemma_walk_ends(g, b, t);
    }
}

/// The occupied cells are finitely many: at most one per cell of the grid.
pub proof fn lemma_box_count_bound(g: Grid, b: int, t: u8)
    requires
        b > 0,
    ensures
        occupied_cells(g, b, t).finite(),
        box_count(g, b, t) <= cells_along(g.height, b) * cells_along(g.width, b),
{
    lemma_walk_finite(g, b, t, 0, cells_along(g.height, b) as int);
    lemma_walk_ends(g, b, t);
}

/// A box that covers the whole raster makes one cell of it: the box count is
/// one as soon as a single pixel has the intensity `target`.
pub proof fn lemma_covering_box_counts_one(g: Grid, box_size: int, target: u8)
    requires
        g.wf(),
        box_size >= g.width,
        box_size >= g.height,
        exists|x: int, y: int| g.contains(x, y) && #[trigger] g.at(x, y) == target,
    ensures
        box_count(g, box_size, target) == 1,
{
    let (x, y) = choose|x: int, y: int| g.contains(x, y) && #[trigger] g.at(x, y) == target;
    lemma_cell_of(x, box_size, 0);
    lemma_cell_of(y, box_size, 0);
    assert(cell_occupied(g, box_size, target, 0, 0));
    assert forall|c: (int, int)| cell_occupied(g, box_size, target, c.0, c.1) implies c == (
        0int,
        0int,
    ) by {
        let (px, py) = choose|px: int, py: int|
            g.contains(px, py) && px / box_size == c.0 && py / box_size == c.1 && #[trigger] g.at(
                px,
                py,
            ) == target;
        lemma_cell_of(px, box_size, 0);
        lemma_cell_of(py, box_size, 0);
    }
    assert(occupied_cells(g, box_size, target) =~= set![(0int, 0int)]);
}

/// How many of the intensities in `pixels` equal `target`.
pub open spec fn pixels_of_level(pixels: Seq<u8>, target: u8) -> nat {
    pixels.filter(|v: u8| v == target).len()
}

/// The positions among the first `k` pixels, row by row, that hold `target`.
pub open spec fn matches_before(g: Grid, target: u8, k: int) -> Set<(int, int)> {
    Set::new(|c: (int, int)| g.contains(c.0, c.1) && g.index(c.0, c.1) < k && g.at(c.0, c.1)
        == target)
}

/// The pixel with place `k` in the pixel sequence is the one at column
/// `k % width` of row `k / width`, and no other.
proof fn lemma_place_of(g: Grid, k: int)
    requires
        g.wf(),
        0 <= k < g.pixels.len(),
    ensures
        g.contains(k % (g.width as int), k / (g.width as int)),
        g.index(k % (g.width as int), k / (g.width as int)) == k,
        forall|x: int, y: int| g.contains(x, y) && g.index(x, y) == k ==> x == k % (g.width as int)
            && y == k / (g.width as int),
{
    let w = g.width as int;
    let h = g.height as int;
    assert(w > 0) by (nonlinear_arith)
        requires
            0 <= k < w * h,
            0 <= w,
            0 <= h,
    ;
    lemma_fundamental_div_mod(k, w);
    lemma_mod_pos_bound(k, w);
    lemma_div_pos_is_pos(k, w);
    assert(w * (k / w) == (k / w) * w) by (nonlinear_arith);
    assert(k / w < h) by (nonlinear_arith)
        requires
            (k / w) * w <= k,
            k < w * h,
            w > 0,
    ;
    assert forall|x: int, y: int| g.contains(x, y) && g.index(x, y) == k implies x == k % w && y
        == k / w by {
        lemma_fundamental_div_mod_converse(k, w, y, x);
    }
}

proof fn lemma_matches_before(g: Grid, target: u8, k: int)
    requires
        g.wf(),
        0 <= k <= g.pixels.len(),
    ensures
        matches_before(g, target, k).finite(),
        matches_before(g, target, k).len() == pixels_of_level(g.pixels.take(k), target),
    decreases k,
{
    reveal(Seq::filter);
    if k == 0 {
        assert(matches_before(g, target, 0) =~= Set::<(int, int)>::empty()) by {
            assert forall|c: (int, int)| g.contains(c.0, c.1) implies g.index(c.0, c.1) >= 0 by {
                crate::raster::lemma_index_in_range(g, c.0, c.1);
            }
        }
        assert(g.pixels.take(0).len() == 0);
    } else {
        lemma_matches_before(g, target, k - 1);
        lemma_place_of(g, k - 1);
        let w = g.width as int;
        let place = ((k - 1) % w, (k - 1) / w);
        let prefix = g.pixels.take(k);
        assert(prefix.drop_last() =~= g.pixels.take(k - 1));
        assert(prefix.last() == g.pixels[k - 1]);
        if g.pixels[k - 1] == target {
            assert(matches_before(g, target, k) =~= matches_before(g, target, k - 1).insert(
                place,
            ));
            assert(!matches_before(g, target, k - 1).contains(place));
        } else {
            assert(matches_before(g, target, k) =~= matches_before(g, target, k - 1));
        }
    }
}

/// With boxes of side one every pixel is its own cell: the box count is the
/// number of pixels of intensity `target`.
pub proof fn lemma_unit_boxes_count_pixels(g: Grid, target: u8)
    requires
        g.wf(),
    ensures
        box_count(g, 1, target) == pixels_of_level(g.pixels, target),
{
    let n = g.pixels.len() as int;
    lemma_matches_before(g, target, n);
    assert(g.pixels.take(n) =~= g.pixels);
    assert forall|c: (int, int)| g.contains(c.0, c.1) implies g.index(c.0, c.1) < n by {
        crate::raster::lemma_index_in_range(g, c.0, c.1);
    }
    assert forall|c: (int, int)|
        occupied_cells(g, 1, target).contains(c) implies matches_before(g, target, n).contains(
        c,
    ) by {
        let (x, y) = choose|x: int, y: int|
            g.contains(x, y) && x / 1 == c.0 && y / 1 == c.1 && #[trigger] g.at(x, y) == target;
        assert(c == (x, y));
    }
    assert forall|c: (int, int)|
        matches_before(g, target, n).contains(c) implies occupied_cells(g, 1, target).contains(
        c,
    ) by {
        assert(g.contains(c.0, c.1) && c.0 / 1 == c.0 && c.1 / 1 == c.1 && g.at(c.0, c.1)
            == target);
    }
    assert(occupied_cells(g, 1, target) =~= matches_before(g, target, n));
}

/// The cell of side `small * factor` in which the cell `c` of side `small`
/// lies.
pub open spec fn coarser_cell(c: (int, int), factor: int) -> (int, int) {
    (c.0 / factor, c.1 / factor)
}

/// Coarser boxes never count more: where the larger side is a multiple of the
/// smaller one, the box count for the larger side is at most the box count
/// for the smaller.
pub proof fn lemma_box_count_monotonic(g: Grid, small: int, large: int, target: u8)
    requires
        small >= 1,
        large >= 1,
        large % small == 0,
    ensures
        box_count(g, large, target) <= box_count(g, small, target),
{
    let factor = large / small;
    lemma_fundamental_div_mod(large, small);
    assert(factor >= 1) by (nonlinear_arith)
        requires
            large == small * factor,
            large >= 1,
            small >= 1,
    ;
    let fine = occupied_cells(g, small, target);
    let coarse = occupied_cells(g, large, target);
    let up = |c: (int, int)| coarser_cell(c, factor);
    lemma_box_count_bound(g, small, target);
    assert forall|x: int| 0 <= x implies (#[trigger] (x / small)) / factor == x / large by {
        lemma_div_denominator(x, small, factor);
    }
    assert forall|c: (int, int)| coarse.contains(c) implies fine.map(up).contains(c) by {
        let (x, y) = choose|x: int, y: int|
            g.contains(x, y) && x / large == c.0 && y / large == c.1 && #[trigger] g.at(x, y)
                == target;
        let d = (x / small, y / small);
        assert(cell_occupied(g, small, target, d.0, d.1));
        assert(fine.contains(d));
        assert(up(d) == c);
    }
    assert forall|c: (int, int)| fine.map(up).contains(c) implies coarse.contains(c) by {
        let d = choose|d: (int, int)| fine.contains(d) && c == up(d);
        let (x, y) = choose|x: int, y: int|
            g.contains(x, y) && x / small == d.0 && y / small == d.1 && #[trigger] g.at(x, y)
                == target;
        assert(g.contains(x, y) && x / large == c.0 && y / large == c.1 && g.at(x, y)
            == target);
    }
    assert(fine.map(up) =~= coarse);
    lemma_map_size_bound(fine, coarse, up);
}

fn cells_to_cover(extent: u32, box_size: u32) -> (n: u32)
    requires
        box_size >= 1,
    ensures
        n == cells_along(extent as nat, box_size as int),
        n <= extent,
{
    if extent == 0 {
        0
    } else {
        proof {
            lemma_div_is_ordered(0, extent - 1, box_size as int);
            lemma_cells_touch(extent as nat, box_size as int, 0);
        }
        (extent - 1) / box_size + 1
    }
}

/// Where the cell with index `c` begins and where it ends, cut off at `extent`.
fn cell_span(extent: u32, box_size: u32, c: u32) -> (span: (u32, u32))
    requires
        box_size >= 1,
        c < cells_along(extent as nat, box_size as int),
    ensures
        span.0 == c * box_size,
        span.0 < span.1 <= extent,
        span.1 == (if c * box_size + box_size <= extent {
            c * box_size + box_size
        } else {
            extent as int
        }),
{
    proof {
        lemma_cells_touch(extent as nat, box_size as int, c as int);
    }
    let start: u32 = c * box_size;
    let end: u32 = if extent - start <= box_size {
        extent
    } else {
        start + box_size
    };
    (start, end)
}

/// Looks through the pixels of one cell for the intensity `target`.
fn scan_cell(image: &Raster, box_size: u32, target: u8, cx: u32, cy: u32) -> (found: bool)
    requires
        box_size >= 1,
        image@.wf(),
        cx < cells_along(image@.width, box_size as int),
        cy < cells_along(image@.height, box_size as int),
    ensures
        found == cell_occupied(image@, box_size as int, target, cx as int, cy as int),
{
    let ghost g = image@;
    let ghost b = box_size as int;
    let width = image.width();
    let height = image.height();
    let (x0, x1) = cell_span(width, box_size, cx);
    let (y0, y1) = cell_span(height, box_size, cy);
    let mut y: u32 = y0;
    while y < y1
        invariant
            g == image@,
            g.wf(),
            width == g.width,
            height == g.height,
            x0 < x1 <= width,
            y0 <= y <= y1 <= height,
            b == box_size,
            b > 0,
            x0 == cx * b,
            y0 == cy * b,
            y1 <= y0 + b,
            x1 <= x0 + b,
            forall|px: int, py: int|
                x0 <= px < x1 && y0 <= py < y ==> #[trigger] g.at(px, py) != target,
        decreases y1 - y,
    {
        let mut x: u32 = x0;
        while x < x1
            invariant
                g == image@,
                g.wf(),
                width == g.width,
                height == g.height,
                x0 <= x <= x1 <= width,
                y0 <= y < y1 <= height,
                b == box_size,
                b > 0,
                x0 == cx * b,
                y0 == cy * b,
                y1 <= y0 + b,
                x1 <= x0 + b,
                forall|px: int, py: int|
                    x0 <= px < x1 && y0 <= py < y ==> #[trigger] g.at(px, py) != target,
                forall|px: int| x0 <= px < x ==> #[trigger] g.at(px, y as int) != target,
            decreases x1 - x,
        {
            if image.pixel_at(x, y) == target {
                proof {
                    lemma_cell_of(x as int, b, cx as int);
                    lemma_cell_of(y as int, b, cy as int);
                    assert(g.contains(x as int, y as int) && g.at(x as int, y as int) == target);
                }
                return true;
            }
            x += 1;
        }
        y += 1;
    }
    proof {
        assert forall|px: int, py: int|
            g.contains(px, py) && px / b == cx && py / b == cy implies #[trigger] g.at(px, py)
            != target by {
            lemma_cell_of(px, b, cx as int);
            lemma_cell_of(py, b, cy as int);
        }
    }
    false
}

/// Counts the cells of side `box_size` that hold at least one pixel of the
/// color `target`.
pub fn count_occupied_cells(image: &Raster, box_size: u32, target: Color) -> (count: u64)
    requires
        box_size >= 1,
    ensures
        image@.wf(),
        count == box_count(image@, box_size as int, target.level()),
{
    let ghost g = image@;
    let ghost b = box_size as int;
    let level = target.value();
    let cols = cells_to_cover(image.width(), box_size);
    let rows = cells_to_cover(image.height(), box_size);
    let mut count: u64 = 0;
    let mut cy: u32 = 0;
    proof {
        lemma_walk_ends(g, b, level);
    }
    while cy < rows
        invariant
            g == image@,
            g.wf(),
            b == box_size,
            b > 0,
            cols == cells_along(g.width, b),
            rows == cells_along(g.height, b),
            cy <= rows,
            count == occupied_before(g, b, level, 0, cy as int).len(),
        decreases rows - cy,
    {
        let mut cx: u32 = 0;
        while cx < cols
            invariant
                g == image@,
                g.wf(),
                b == box_size,
                b > 0,
                cols == cells_along(g.width, b),
                rows == cells_along(g.height, b),
                cy < rows,
                cx <= cols,
                count == occupied_before(g, b, level, cx as int, cy as int).len(),
            decreases cols - cx,
        {
            let found = scan_cell(image, box_size, level, cx, cy);
            proof {
                lemma_walk_step(g, b, level, cx as int, cy as int);
                lemma_walk_finite(g, b, level, cx as int, cy as int);
                lemma_walk_finite(g, b, level, cx + 1, cy as int);
                assert(cy * cols + (cx + 1) <= 0xFFFF_FFFF * 0xFFFF_FFFF) by (nonlinear_arith)
                    requires
                        0 <= cy < rows <= 0xFFFF_FFFF,
                        0 <= cx < cols <= 0xFFFF_FFFF,
                ;
            }
            if found {
                count = count + 1;
            }
            cx += 1;
        }
        proof {
            lemma_walk_row_end(g, b, level, cy as int);
        }
        cy += 1;
    }
    count
}

} // verus!
