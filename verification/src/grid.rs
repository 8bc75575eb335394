use vstd::prelude::*;

verus! {

/// The width and height of a heatmap grid with one cell for each pair of
/// whole-number coordinates from `(min_x, min_y)` to `(max_x, max_y)`.
pub fn grid_size(min_x: i32, max_x: i32, min_y: i32, max_y: i32) -> (r: (usize, usize))
    requires
        min_x <= max_x,
        min_y <= max_y,
        max_x - min_x + 1 <= i32::MAX,
        max_y - min_y + 1 <= i32::MAX,
    ensures
        r.0 == max_x - min_x + 1,
        r.1 == max_y - min_y + 1,
{
    let width = (max_x - min_x + 1) as usize;
    let height = (max_y - min_y + 1) as usize;
    (width, height)
}

/// The position, row by row, of the cell at `(x, y)` in a grid of `width`
/// columns whose first cell is at `(min_x, min_y)`.
pub fn grid_index(x: i32, y: i32, min_x: i32, min_y: i32, width: usize, height: usize) -> (r: usize)
    requires
        min_x <= x,
        min_y <= y,
        x - min_x < width,
        y - min_y < height,
        x - min_x <= i32::MAX,
        y - min_y <= i32::MAX,
        width * height <= usize::MAX,
    ensures
        r == (x - min_x) + (y - min_y) * width,
        r < width * height,
{
    let dx = (x - min_x) as usize;
    let dy = (y - min_y) as usize;
    proof {
        assert(dy * width <= (height - 1) * width) by (nonlinear_arith)
            requires
                dy <= height - 1,
        ;
        assert((height - 1) * width + width == width * height) by (nonlinear_arith);
    }
    dx + dy * width
}

} // verus!
