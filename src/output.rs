//! Cropping of the padded grid to the requested window.
use vstd::prelude::*;

verus! {

/// The first `width` columns of `grid`, each cut to its first `height` cells:
/// `r[x][y] == grid[x][y]` for `x < width`, `y < height`. The grid is copied,
/// not resampled, and is left as it was.
pub fn crop<T: Copy>(grid: &Vec<Vec<T>>, width: usize, height: usize) -> (r: Vec<Vec<T>>)
    requires
        width <= grid@.len(),
        forall|x: int| 0 <= x < width ==> height <= #[trigger] grid@[x]@.len(),
    ensures
        r@.len() == width,
        forall|x: int| 0 <= x < width ==> #[trigger] r@[x]@ == grid@[x]@.subrange(0, height as int),
{
    let mut r: Vec<Vec<T>> = Vec::new();
    let mut x: usize = 0;
    while x < width
        invariant
            x <= width,
            width <= grid@.len(),
            forall|i: int| 0 <= i < width ==> height <= #[trigger] grid@[i]@.len(),
            r@.len() == x,
            forall|i: int| 0 <= i < x ==> #[trigger] r@[i]@ == grid@[i]@.subrange(0, height as int),
        decreases width - x,
    {
        let src = &grid[x];
        let mut column: Vec<T> = Vec::new();
        let mut y: usize = 0;
        while y < height
            invariant
                y <= height,
                height <= src@.len(),
                column@ == src@.subrange(0, y as int),
            decreases height - y,
        {
            column.push(src[y]);
            proof {
                assert(column@ =~= src@.subrange(0, y + 1));
            }
            y = y + 1;
        }
        r.push(column);
        x = x + 1;
    }
    r
}

} // verus!
