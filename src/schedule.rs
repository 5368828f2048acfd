//! The order in which diamond-square subdivision writes the padded grid.
//!
//! Each level of the subdivision has a half-step `h`. Its square pass writes
//! every cell whose coordinates are both odd multiples of `h`, from the mean
//! of its four diagonal neighbours; its diamond pass then writes every cell
//! with exactly one coordinate an odd multiple of `h` (the other an even one),
//! from the mean of those of its four orthogonal neighbours that lie in the
//! grid. Both passes go row by row (`y` outer, `x` inner). The next level
//! halves `h`; the last one has `h == 1`.
use vstd::prelude::*;
use vstd::arithmetic::div_mod::{
    lemma_fundamental_div_mod,
    lemma_mod_add_multiples_vanish,
    lemma_mod_multiples_basic,
    lemma_small_mod,
};
use crate::sizing::{MAX_DIM, is_padded, pow2, lemma_pow2_positive};
use crate::schedule_facts::{
    all_sound,
    distinct_cells,
    is_corner,
    lemma_schedule_covers,
    lemma_schedule_reads_written,
    lemma_schedule_sound,
    lemma_schedule_writes_once,
    reads_written,
    writes_cell,
};

verus! {

/// One write of the subdivision: cell `(x, y)` becomes the mean of the cells
/// listed in `neighbors`, displaced by a random amount scaled by `range`.
pub struct Step {
    pub x: usize,
    pub y: usize,
    pub range: usize,
    pub neighbors: Vec<(usize, usize)>,
}

/// Mathematical model of a [`Step`].
pub struct StepView {
    pub x: int,
    pub y: int,
    pub range: int,
    pub neighbors: Seq<(usize, usize)>,
}

impl View for Step {
    type V = StepView;

    open spec fn view(&self) -> StepView {
        StepView {
            x: self.x as int,
            y: self.y as int,
            range: self.range as int,
            neighbors: self.neighbors@,
        }
    }
}

/// The models of the steps of `s`.
pub open spec fn views(s: Seq<Step>) -> Seq<StepView> {
    s.map_values(|t: Step| t@)
}

/// The four diagonal neighbours of `(x, y)` at distance `h`.
pub open spec fn diagonal(h: int, x: int, y: int) -> Seq<(usize, usize)> {
    seq![
        ((x - h) as usize, (y - h) as usize),
        ((x + h) as usize, (y - h) as usize),
        ((x + h) as usize, (y + h) as usize),
        ((x - h) as usize, (y + h) as usize),
    ]
}

/// Those of the four orthogonal neighbours of `(x, y)` at distance `h` that
/// lie in a grid of side `side`: left, up, right, down.
pub open spec fn orthogonal(side: int, h: int, x: int, y: int) -> Seq<(usize, usize)> {
    (if x - h >= 0 { seq![((x - h) as usize, y as usize)] } else { Seq::empty() })
    + (if y - h >= 0 { seq![(x as usize, (y - h) as usize)] } else { Seq::empty() })
    + (if x + h < side { seq![((x + h) as usize, y as usize)] } else { Seq::empty() })
    + (if y + h < side { seq![(x as usize, (y + h) as usize)] } else { Seq::empty() })
}

/// The write of cell `(x, y)` at half-step `h`: its range is `2h`, and it
/// reads the diagonal neighbours in the square pass, the orthogonal ones in
/// the diamond pass.
pub open spec fn step_at(side: int, h: int, x: int, y: int, diamond: bool) -> StepView {
    StepView {
        x,
        y,
        range: 2 * h,
        neighbors: if diamond { orthogonal(side, h, x, y) } else { diagonal(h, x, y) },
    }
}

/// Cells `(x, y)`, `(x + 2h, y)`, ... of row `y` that lie in the grid.
pub open spec fn row(side: int, h: int, y: int, x: int, diamond: bool) -> Seq<StepView>
    decreases side + 2 * h - x,
{
    if h <= 0 || x >= side {
        Seq::empty()
    } else {
        seq![step_at(side, h, x, y, diamond)] + row(side, h, y, x + 2 * h, diamond)
    }
}

/// The square pass from row `y` on: rows `y`, `y + 2h`, ..., each from `x = h`.
pub open spec fn square_rows(side: int, h: int, y: int) -> Seq<StepView>
    decreases side + 2 * h - y,
{
    if h <= 0 || y >= side {
        Seq::empty()
    } else {
        row(side, h, y, h, false) + square_rows(side, h, y + 2 * h)
    }
}

/// First column of row `y` in the diamond pass: `h` on the rows that are even
/// multiples of `h`, `0` on the others.
pub open spec fn first_x(h: int, y: int) -> int {
    if y % (2 * h) == 0 {
        h
    } else {
        0
    }
}

/// The diamond pass from row `y` on: rows `y`, `y + h`, ...
pub open spec fn diamond_rows(side: int, h: int, y: int) -> Seq<StepView>
    decreases side + h - y,
{
    if h <= 0 || y >= side {
        Seq::empty()
    } else {
        row(side, h, y, first_x(h, y), true) + diamond_rows(side, h, y + h)
    }
}

/// One level of the subdivision: its square pass, then its diamond pass.
pub open spec fn level(side: int, h: int) -> Seq<StepView> {
    square_rows(side, h, h) + diamond_rows(side, h, 0)
}

/// The levels of half-step `h`, `h / 2`, ... down to 1.
pub open spec fn levels_from(side: int, h: int) -> Seq<StepView>
    decreases h,
{
    if h <= 0 {
        Seq::empty()
    } else {
        level(side, h) + levels_from(side, h / 2)
    }
}

/// Every write of the subdivision of a grid of side `side`, in order.
pub open spec fn schedule(side: int) -> Seq<StepView> {
    levels_from(side, (side - 1) / 2)
}

/// A cell on the square lattice of half-step `h` has all four diagonal
/// neighbours in the grid.
pub(crate) proof fn lemma_square_fits(side: int, h: int, x: int)
    requires
        0 < h,
        0 <= x < side,
        (side - 1) % (2 * h) == 0,
        (x as int) % (2 * h as int) == h as int,
    ensures
        h <= x,
        x + h < side,
{
    lemma_fundamental_div_mod(x, 2 * h);
    lemma_fundamental_div_mod(side - 1, 2 * h);
    let q = x / (2 * h);
    let p = (side - 1) / (2 * h);
    assert(x == 2 * h * q + h);
    assert(side - 1 == 2 * h * p);
    assert(0 <= q) by (nonlinear_arith)
        requires
            x == 2 * h * q + h,
            0 <= x,
            0 < h,
    ;
    assert(q < p) by (nonlinear_arith)
        requires
            x == 2 * h * q + h,
            side - 1 == 2 * h * p,
            x < side,
            0 < h,
    ;
    assert(2 * h * (q + 1) <= 2 * h * p) by (nonlinear_arith)
        requires
            q + 1 <= p,
            0 < h,
    ;
    assert(x + h == 2 * h * (q + 1)) by (nonlinear_arith)
        requires
            x == 2 * h * q + h,
    ;
}

pub(crate) proof fn lemma_step_mod(x: int, h: int)
    requires
        0 < h,
    ensures
        (x + 2 * h) % (2 * h) == x % (2 * h),
{
    lemma_mod_add_multiples_vanish(x, 2 * h);
}

fn make_step(side: usize, h: usize, x: usize, y: usize, diamond: bool) -> (s: Step)
    requires
        0 < h,
        2 * h < side,
        x < side,
        y < side,
        side <= MAX_DIM + 1,
        !diamond ==> h <= x && x + h < side && h <= y && y + h < side,
    ensures
        s@ == step_at(side as int, h as int, x as int, y as int, diamond),
{
    let mut neighbors: Vec<(usize, usize)> = Vec::new();
    if diamond {
        if x >= h {
            neighbors.push((x - h, y));
        }
        if y >= h {
            neighbors.push((x, y - h));
        }
        if x + h < side {
            neighbors.push((x + h, y));
        }
        if y + h < side {
            neighbors.push((x, y + h));
        }
    } else {
        neighbors.push((x - h, y - h));
        neighbors.push((x + h, y - h));
        neighbors.push((x + h, y + h));
        neighbors.push((x - h, y + h));
    }
    let s = Step { x, y, range: 2 * h, neighbors };
    proof {
        let (si, hi, xi, yi) = (side as int, h as int, x as int, y as int);
        if diamond {
            assert(s.neighbors@ =~= orthogonal(si, hi, xi, yi));
        } else {
            assert(s.neighbors@ =~= diagonal(hi, xi, yi));
        }
    }
    s
}

proof fn lemma_views_push(s: Seq<Step>, t: Step)
    ensures
        views(s.push(t)) == views(s).push(t@),
{
    assert(views(s.push(t)) =~= views(s).push(t@));
}

fn push_row(steps: &mut Vec<Step>, side: usize, h: usize, y: usize, x0: usize, diamond: bool)
    requires
        0 < h,
        2 * h < side,
        y < side,
        x0 <= h,
        side <= MAX_DIM + 1,
        (side - 1) % (2 * h as int) == 0,
        !diamond ==> x0 == h && (y as int) % (2 * h as int) == h as int,
    ensures
        views(final(steps)@) == views(old(steps)@) + row(side as int, h as int, y as int, x0 as int, diamond),
{
    let ghost start = views(steps@);
    let ghost target = start + row(side as int, h as int, y as int, x0 as int, diamond);
    proof {
        lemma_small_mod(h as nat, 2 * h as nat);
    }
    let mut x = x0;
    while x < side
        invariant
            0 < h,
            2 * h < side,
            y < side,
            side <= MAX_DIM + 1,
            (side - 1) % (2 * h as int) == 0,
            !diamond ==> (x as int) % (2 * h as int) == h as int && (y as int) % (2 * h as int) == h as int,
            x < side + 2 * h,
            views(steps@) + row(side as int, h as int, y as int, x as int, diamond) == target,
        decreases side + 2 * h - x,
    {
        proof {
            if !diamond {
                lemma_square_fits(side as int, h as int, x as int);
                lemma_square_fits(side as int, h as int, y as int);
            }
        }
        let s = make_step(side, h, x, y, diamond);
        let ghost prev = steps@;
        let ghost before = views(prev);
        steps.push(s);
        proof {
            lemma_views_push(prev, s);
            let rest = row(side as int, h as int, y as int, (x + 2 * h) as int, diamond);
            assert(row(side as int, h as int, y as int, x as int, diamond) == seq![s@] + rest);
            assert(views(steps@) == before.push(s@));
            assert(before + (seq![s@] + rest) =~= before.push(s@) + rest);
            if !diamond {
                lemma_step_mod(x as int, h as int);
            }
        }
        x = x + 2 * h;
    }
}

proof fn lemma_seq_regroup(a: Seq<StepView>, b: Seq<StepView>, c: Seq<StepView>)
    ensures
        a + (b + c) == (a + b) + c,
{
    assert(a + (b + c) =~= (a + b) + c);
}

fn push_level(steps: &mut Vec<Step>, side: usize, h: usize)
    requires
        0 < h,
        2 * h < side,
        side <= MAX_DIM + 1,
        (side - 1) % (2 * h as int) == 0,
    ensures
        views(final(steps)@) == views(old(steps)@) + level(side as int, h as int),
{
    let ghost start = views(steps@);
    proof {
        lemma_small_mod(h as nat, 2 * h as nat);
    }
    let mut y = h;
    while y < side
        invariant
            0 < h,
            2 * h < side,
            side <= MAX_DIM + 1,
            (side - 1) % (2 * h as int) == 0,
            (y as int) % (2 * h as int) == h as int,
            y < side + 2 * h,
            views(steps@) + square_rows(side as int, h as int, y as int)
                == start + square_rows(side as int, h as int, h as int),
        decreases side + 2 * h - y,
    {
        let ghost before = views(steps@);
        push_row(steps, side, h, y, h, false);
        proof {
            lemma_seq_regroup(
                before,
                row(side as int, h as int, y as int, h as int, false),
                square_rows(side as int, h as int, y + 2 * h),
            );
            lemma_step_mod(y as int, h as int);
        }
        y = y + 2 * h;
    }
    let ghost middle = views(steps@);
    let mut y: usize = 0;
    while y < side
        invariant
            0 < h,
            2 * h < side,
            side <= MAX_DIM + 1,
            (side - 1) % (2 * h as int) == 0,
            y < side + h,
            views(steps@) + diamond_rows(side as int, h as int, y as int)
                == middle + diamond_rows(side as int, h as int, 0),
        decreases side + h - y,
    {
        let x0 = if y % (2 * h) == 0 { h } else { 0 };
        let ghost before = views(steps@);
        push_row(steps, side, h, y, x0, true);
        proof {
            assert(x0 as int == first_x(h as int, y as int));
            lemma_seq_regroup(
                before,
                row(side as int, h as int, y as int, x0 as int, true),
                diamond_rows(side as int, h as int, y + h),
            );
        }
        y = y + h;
    }
    proof {
        lemma_seq_regroup(
            start,
            square_rows(side as int, h as int, h as int),
            diamond_rows(side as int, h as int, 0),
        );
    }
}

/// Every write that diamond-square subdivision makes on a padded grid of side
/// `side`, in the order in which they are made: for each half-step from
/// `(side - 1) / 2` down to 1, the square pass, then the diamond pass.
pub fn plan(side: usize) -> (r: Vec<Step>)
    requires
        2 <= side <= MAX_DIM + 1,
        is_padded(side as int),
    ensures
        views(r@) == schedule(side as int),
        all_sound(side as int, views(r@)),
        distinct_cells(views(r@)),
        reads_written(side as int, views(r@)),
        forall|x: int, y: int|
            0 <= x < side && 0 <= y < side && !is_corner(side as int, x, y) ==> #[trigger] writes_cell(
                views(r@),
                x,
                y,
            ),
{
    proof {
        lemma_schedule_sound(side as int);
        lemma_schedule_writes_once(side as int);
        lemma_schedule_reads_written(side as int);
        assert forall|x: int, y: int|
            0 <= x < side && 0 <= y < side && !is_corner(
                side as int,
                x,
                y,
            ) implies #[trigger] writes_cell(schedule(side as int), x, y) by {
            lemma_schedule_covers(side as int, x, y);
        }
    }
    let mut steps: Vec<Step> = Vec::new();
    let mut h: usize = (side - 1) / 2;
    let ghost k: nat = choose|k: nat| side as int == pow2(k) + 1;
    let ghost j: nat = if k == 0 { 0 } else { (k - 1) as nat };
    let ghost m: int = 1;
    proof {
        lemma_pow2_positive(j);
        if k == 0 {
            assert(h == 0);
        } else {
            assert(pow2(k) == 2 * pow2(j));
            assert(h == pow2(j));
        }
        assert(views(steps@) =~= Seq::<StepView>::empty());
    }
    while h > 0
        invariant
            2 <= side <= MAX_DIM + 1,
            h > 0 ==> h == pow2(j) && side - 1 == 2 * h * m && m >= 1,
            views(steps@) + levels_from(side as int, h as int) == schedule(side as int),
        decreases h,
    {
        proof {
            assert(2 * h < side) by (nonlinear_arith)
                requires
                    side - 1 == 2 * h * m,
                    m >= 1,
                    h > 0,
            ;
            lemma_mod_multiples_basic(m, 2 * h as int);
            assert((side - 1) as int == m * (2 * h as int)) by (nonlinear_arith)
                requires
                    side - 1 == 2 * h * m,
            ;
        }
        let ghost before = views(steps@);
        push_level(&mut steps, side, h);
        proof {
            lemma_seq_regroup(before, level(side as int, h as int), levels_from(side as int, (h / 2) as int));
            if h / 2 > 0 {
                assert(j > 0) by {
                    if j == 0 {
                        assert(pow2(0) == 1);
                    }
                }
                let jj = (j - 1) as nat;
                assert(pow2(j) == 2 * pow2(jj));
                assert(side - 1 == 2 * (h / 2) * (2 * m)) by (nonlinear_arith)
                    requires
                        side - 1 == 2 * h * m,
                        h == 2 * pow2(jj),
                        h / 2 == pow2(jj),
                ;
                j = jj;
                m = 2 * m;
            }
        }
        h = h / 2;
    }
    steps
}

} // verus!
