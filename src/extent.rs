//! Requested dimensions of a heightmap and the padded grid side they imply.
use vstd::prelude::*;
use crate::sizing::{MAX_DIM, padded_side, side_for, lemma_padded_side_is_least};

verus! {

/// Width and height used when none is set.
pub const DEFAULT_DIM: usize = 129;

pub open spec fn larger(a: int, b: int) -> int {
    if a >= b {
        a
    } else {
        b
    }
}

/// Mathematical model of an [`Extent`].
pub struct ExtentView {
    pub width: int,
    pub height: int,
    pub side: int,
}

impl ExtentView {
    /// Both dimensions are at least 2 and the side is the padded side of the
    /// larger one.
    pub open spec fn wf(self) -> bool {
        &&& 2 <= self.width <= MAX_DIM
        &&& 2 <= self.height <= MAX_DIM
        &&& self.side == padded_side(larger(self.width, self.height))
    }

    /// The extent after a request to change the width to `w`: ignored unless
    /// `w` is at least 2 and differs from the current width.
    pub open spec fn with_width(self, w: int) -> ExtentView {
        if 2 <= w && w != self.width {
            ExtentView { width: w, height: self.height, side: padded_side(larger(w, self.height)) }
        } else {
            self
        }
    }

    /// The extent after a request to change the height to `h`: ignored unless
    /// `h` is at least 2 and differs from the current height.
    pub open spec fn with_height(self, h: int) -> ExtentView {
        if 2 <= h && h != self.height {
            ExtentView { width: self.width, height: h, side: padded_side(larger(self.width, h)) }
        } else {
            self
        }
    }

    /// Cell `(x, y)` lies in the requested `width × height` window.
    pub open spec fn in_window(self, x: int, y: int) -> bool {
        0 <= x < self.width && 0 <= y < self.height
    }
}

/// Requested width and height of a heightmap, with the side of the padded
/// square grid that holds it.
pub struct Extent {
    width: usize,
    height: usize,
    side: usize,
}

impl View for Extent {
    type V = ExtentView;

    closed spec fn view(&self) -> ExtentView {
        ExtentView { width: self.width as int, height: self.height as int, side: self.side as int }
    }
}

impl Extent {
    /// A 129 × 129 extent, whose side is 129.
    pub fn new() -> (r: Extent)
        ensures
            r@ == (ExtentView { width: 129, height: 129, side: 129 }),
            r@.wf(),
    {
        let side = side_for(DEFAULT_DIM);
        proof {
            reveal_with_fuel(crate::sizing::padded_from, 9);
        }
        Extent { width: DEFAULT_DIM, height: DEFAULT_DIM, side }
    }

    pub fn width(&self) -> (r: usize)
        ensures
            r == self@.width,
    {
        self.width
    }

    pub fn height(&self) -> (r: usize)
        ensures
            r == self@.height,
    {
        self.height
    }

    pub fn side(&self) -> (r: usize)
        ensures
            r == self@.side,
    {
        self.side
    }

    /// Sets the width when `width` is at least 2 and differs from the current
    /// one; otherwise nothing changes. The side follows the larger dimension.
    /// Returns whether the side changed, that is whether a grid of the old
    /// side no longer fits.
    pub fn set_width(&mut self, width: usize) -> (resized: bool)
        requires
            old(self)@.wf(),
            width <= MAX_DIM,
        ensures
            final(self)@ == old(self)@.with_width(width as int),
            final(self)@.wf(),
            resized == (final(self)@.side != old(self)@.side),
    {
        if width >= 2 && width != self.width {
            let larger = if width >= self.height { width } else { self.height };
            let side = side_for(larger);
            let resized = side != self.side;
            self.width = width;
            self.side = side;
            resized
        } else {
            false
        }
    }

    /// Sets the height when `height` is at least 2 and differs from the
    /// current one; otherwise nothing changes. The side follows the larger
    /// dimension. Returns whether the side changed.
    pub fn set_height(&mut self, height: usize) -> (resized: bool)
        requires
            old(self)@.wf(),
            height <= MAX_DIM,
        ensures
            final(self)@ == old(self)@.with_height(height as int),
            final(self)@.wf(),
            resized == (final(self)@.side != old(self)@.side),
    {
        if height >= 2 && height != self.height {
            let larger = if self.width >= height { self.width } else { height };
            let side = side_for(larger);
            let resized = side != self.side;
            self.height = height;
            self.side = side;
            resized
        } else {
            false
        }
    }

    /// Whether cell `(x, y)` lies in the requested window, so that it counts
    /// towards the reported minimum and maximum.
    pub fn in_window(&self, x: usize, y: usize) -> (r: bool)
        ensures
            r == self@.in_window(x as int, y as int),
    {
        x < self.width && y < self.height
    }

    /// The four corners of the padded grid, seeded before subdivision:
    /// `(0, 0)`, `(0, side - 1)`, `(side - 1, 0)`, `(side - 1, side - 1)`.
    pub fn corners(&self) -> (r: Vec<(usize, usize)>)
        requires
            self@.wf(),
        ensures
            r@ == seq![
                (0usize, 0usize),
                (0usize, (self@.side - 1) as usize),
                ((self@.side - 1) as usize, 0usize),
                ((self@.side - 1) as usize, (self@.side - 1) as usize),
            ],
    {
        proof {
            lemma_padded_side_is_least(larger(self@.width, self@.height));
        }
        let p = self.side - 1;
        let mut r: Vec<(usize, usize)> = Vec::new();
        r.push((0, 0));
        r.push((0, p));
        r.push((p, 0));
        r.push((p, p));
        r
    }
}

/// Repeating an accepted width or height request changes nothing more, and a
/// request below 2 leaves the extent as it was.
pub proof fn lemma_setters_idempotent(e: ExtentView, n: int)
    requires
        e.wf(),
    ensures
        e.with_width(n).with_width(n) == e.with_width(n),
        e.with_height(n).with_height(n) == e.with_height(n),
        n < 2 ==> e.with_width(n) == e && e.with_height(n) == e,
{
}

/// A well-formed extent's side is the smallest value of the form `2^k + 1`
/// that is at least its larger dimension.
pub proof fn lemma_side_is_least(e: ExtentView)
    requires
        e.wf(),
    ensures
        crate::sizing::is_least_padded(e.side, larger(e.width, e.height)),
{
    lemma_padded_side_is_least(larger(e.width, e.height));
}

} // verus!
