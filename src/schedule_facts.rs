//! What the subdivision schedule of a padded grid guarantees: every write
//! stays in the grid and leaves the corners alone, reads between one and four
//! cells that are already written, and every cell but the corners is written
//! exactly once.
use vstd::prelude::*;
use vstd::arithmetic::div_mod::{
    lemma_fundamental_div_mod,
    lemma_mod_multiples_basic,
    lemma_mod_multiples_vanish,
    lemma_small_mod,
};
use crate::sizing::{MAX_DIM, is_padded, pow2, lemma_pow2_positive};
use crate::schedule::{
    StepView,
    diamond_rows,
    first_x,
    level,
    levels_from,
    lemma_square_fits,
    lemma_step_mod,
    row,
    schedule,
    square_rows,
    step_at,
};

verus! {

/// Cell `(x, y)` is one of the four corners of a grid of side `side`.
pub open spec fn is_corner(side: int, x: int, y: int) -> bool {
    (x == 0 || x == side - 1) && (y == 0 || y == side - 1)
}

/// A write that stays in the grid, leaves the seeded corners alone, and reads
/// between one and four cells of the grid, so that their mean is defined.
pub open spec fn sound_step(side: int, e: StepView) -> bool {
    &&& 0 <= e.x < side
    &&& 0 <= e.y < side
    &&& !is_corner(side, e.x, e.y)
    &&& 1 <= e.neighbors.len() <= 4
    &&& forall|j: int|
        0 <= j < e.neighbors.len() ==> (#[trigger] e.neighbors[j]).0 < side && e.neighbors[j].1
            < side
}

/// Every write of `s` is sound in a grid of side `side`.
pub open spec fn all_sound(side: int, s: Seq<StepView>) -> bool {
    forall|i: int| 0 <= i < s.len() ==> sound_step(side, #[trigger] s[i])
}

proof fn lemma_all_sound_concat(side: int, a: Seq<StepView>, b: Seq<StepView>)
    requires
        all_sound(side, a),
        all_sound(side, b),
    ensures
        all_sound(side, a + b),
{
    assert forall|i: int| 0 <= i < (a + b).len() implies sound_step(side, #[trigger] (a + b)[i]) by {
        if i < a.len() {
            assert((a + b)[i] == a[i]);
        } else {
            assert((a + b)[i] == b[i - a.len()]);
        }
    }
}

/// A cell on the odd multiples of `h` is neither 0 nor `side - 1`.
proof fn lemma_odd_not_edge(side: int, h: int, x: int)
    requires
        0 < h,
        0 <= x < side,
        (side - 1) % (2 * h) == 0,
        x % (2 * h) == h,
    ensures
        x != 0,
        x != side - 1,
{
    lemma_small_mod(0, 2 * h as nat);
}

proof fn lemma_row_sound(side: int, h: int, y: int, x: int, diamond: bool)
    requires
        0 < h,
        2 * h < side <= MAX_DIM + 1,
        0 <= y < side,
        0 <= x,
        (side - 1) % (2 * h) == 0,
        !diamond ==> x % (2 * h) == h && y % (2 * h) == h,
        diamond ==> (x % (2 * h) == h && y % (2 * h) == 0) || (x % (2 * h) == 0 && y % (2 * h)
            == h),
    ensures
        all_sound(side, row(side, h, y, x, diamond)),
    decreases side + 2 * h - x,
{
    if x < side {
        lemma_step_mod(x, h);
        lemma_row_sound(side, h, y, x + 2 * h, diamond);
        let e = step_at(side, h, x, y, diamond);
        if !diamond {
            lemma_square_fits(side, h, x);
            lemma_square_fits(side, h, y);
            lemma_odd_not_edge(side, h, x);
        } else if x % (2 * h) == h {
            lemma_square_fits(side, h, x);
            lemma_odd_not_edge(side, h, x);
            assert(e.neighbors[0] == ((x - h) as usize, y as usize));
        } else {
            lemma_square_fits(side, h, y);
            lemma_odd_not_edge(side, h, y);
            assert(e.neighbors.len() >= 1);
        }
        assert(sound_step(side, e));
        lemma_all_sound_concat(side, seq![e], row(side, h, y, x + 2 * h, diamond));
    }
}

proof fn lemma_square_rows_sound(side: int, h: int, y: int)
    requires
        0 < h,
        2 * h < side <= MAX_DIM + 1,
        0 <= y,
        (side - 1) % (2 * h) == 0,
        y % (2 * h) == h,
    ensures
        all_sound(side, square_rows(side, h, y)),
    decreases side + 2 * h - y,
{
    if y < side {
        lemma_small_mod(h as nat, 2 * h as nat);
        lemma_row_sound(side, h, y, h, false);
        lemma_step_mod(y, h);
        lemma_square_rows_sound(side, h, y + 2 * h);
        lemma_all_sound_concat(side, row(side, h, y, h, false), square_rows(side, h, y + 2 * h));
    }
}

/// Stepping by `h` alternates a multiple of `h` between the even and the odd
/// multiples.
proof fn lemma_half_step_mod(y: int, h: int)
    requires
        0 < h,
        0 <= y,
        y % (2 * h) == 0 || y % (2 * h) == h,
    ensures
        y % (2 * h) == 0 ==> (y + h) % (2 * h) == h,
        y % (2 * h) == h ==> (y + h) % (2 * h) == 0,
{
    lemma_fundamental_div_mod(y, 2 * h);
    let q = y / (2 * h);
    lemma_small_mod(h as nat, 2 * h as nat);
    if y % (2 * h) == 0 {
        assert(y + h == (2 * h) * q + h);
        lemma_mod_multiples_vanish(q, h, 2 * h);
    } else {
        assert(y + h == (q + 1) * (2 * h)) by (nonlinear_arith)
            requires
                y == (2 * h) * q + h,
        ;
        lemma_mod_multiples_basic(q + 1, 2 * h);
    }
}

proof fn lemma_diamond_rows_sound(side: int, h: int, y: int)
    requires
        0 < h,
        2 * h < side <= MAX_DIM + 1,
        0 <= y,
        (side - 1) % (2 * h) == 0,
        y % (2 * h) == 0 || y % (2 * h) == h,
    ensures
        all_sound(side, diamond_rows(side, h, y)),
    decreases side + h - y,
{
    if y < side {
        lemma_small_mod(h as nat, 2 * h as nat);
        lemma_small_mod(0, 2 * h as nat);
        lemma_row_sound(side, h, y, first_x(h, y), true);
        lemma_half_step_mod(y, h);
        lemma_diamond_rows_sound(side, h, y + h);
        lemma_all_sound_concat(side, row(side, h, y, first_x(h, y), true), diamond_rows(side, h, y + h));
    }
}

proof fn lemma_levels_sound(side: int, h: int, j: nat, m: int)
    requires
        2 <= side <= MAX_DIM + 1,
        h > 0 ==> h == pow2(j) && side - 1 == 2 * h * m && m >= 1,
    ensures
        all_sound(side, levels_from(side, h)),
    decreases h,
{
    if h > 0 {
        assert(2 * h < side) by (nonlinear_arith)
            requires
                side - 1 == 2 * h * m,
                m >= 1,
                h > 0,
        ;
        lemma_mod_multiples_basic(m, 2 * h);
        assert(side - 1 == m * (2 * h)) by (nonlinear_arith)
            requires
                side - 1 == 2 * h * m,
        ;
        lemma_small_mod(0, 2 * h as nat);
        lemma_small_mod(h as nat, 2 * h as nat);
        lemma_square_rows_sound(side, h, h);
        lemma_diamond_rows_sound(side, h, 0);
        lemma_all_sound_concat(side, square_rows(side, h, h), diamond_rows(side, h, 0));
        if h / 2 > 0 {
            assert(j > 0) by {
                if j == 0 {
                    assert(pow2(0) == 1);
                }
            }
            let jj = (j - 1) as nat;
            assert(pow2(j) == 2 * pow2(jj));
            assert(side - 1 == 2 * (h / 2) * (2 * m)) by (nonlinear_arith)
                requires
                    side - 1 == 2 * h * m,
                    h == 2 * pow2(jj),
                    h / 2 == pow2(jj),
            ;
            lemma_levels_sound(side, h / 2, jj, 2 * m);
        } else {
            lemma_levels_sound(side, h / 2, j, m);
        }
        lemma_all_sound_concat(side, level(side, h), levels_from(side, h / 2));
    }
}

/// Every write of the subdivision of a padded grid stays inside the grid,
/// never overwrites one of the four seeded corners, and reads between one and
/// four cells of the grid, so that the mean it takes is always defined.
pub proof fn lemma_schedule_sound(side: int)
    requires
        2 <= side <= MAX_DIM + 1,
        is_padded(side),
    ensures
        all_sound(side, schedule(side)),
{
    let k: nat = choose|k: nat| side == pow2(k) + 1;
    let h = (side - 1) / 2;
    if k == 0 {
        assert(h == 0);
        lemma_levels_sound(side, h, 0, 1);
    } else {
        let j = (k - 1) as nat;
        lemma_pow2_positive(j);
        assert(pow2(k) == 2 * pow2(j));
        assert(h == pow2(j));
        lemma_levels_sound(side, h, j, 1);
    }
}

/// No two writes of `s` target the same cell.
pub open spec fn distinct_cells(s: Seq<StepView>) -> bool {
    forall|i: int, j: int|
        0 <= i < j < s.len() ==> !(s[i].x == s[j].x && s[i].y == s[j].y)
}

/// The writes of `s` go row by row, and left to right within a row.
pub open spec fn row_major(s: Seq<StepView>) -> bool {
    forall|i: int, j: int|
        0 <= i < j < s.len() ==> s[i].y < s[j].y || (s[i].y == s[j].y && s[i].x < s[j].x)
}

/// Cell of the square pass at half-step `h`: both coordinates odd multiples of `h`.
pub open spec fn square_cell(h: int, e: StepView) -> bool {
    e.x % (2 * h) == h && e.y % (2 * h) == h
}

/// Cell of the diamond pass at half-step `h`: one coordinate an odd multiple
/// of `h`, the other an even one.
pub open spec fn diamond_cell(h: int, e: StepView) -> bool {
    (e.x % (2 * h) == h && e.y % (2 * h) == 0) || (e.x % (2 * h) == 0 && e.y % (2 * h) == h)
}

proof fn lemma_row_shape(side: int, h: int, y: int, x: int, diamond: bool)
    requires
        0 < h,
    ensures
        row_major(row(side, h, y, x, diamond)),
        forall|i: int|
            0 <= i < row(side, h, y, x, diamond).len() ==> {
                let e = #[trigger] row(side, h, y, x, diamond)[i];
                e.y == y && e.x >= x && e.x % (2 * h) == x % (2 * h) && e == step_at(
                    side,
                    h,
                    e.x,
                    y,
                    diamond,
                )
            },
    decreases side + 2 * h - x,
{
    if x < side {
        lemma_step_mod(x, h);
        lemma_row_shape(side, h, y, x + 2 * h, diamond);
        let rest = row(side, h, y, x + 2 * h, diamond);
        let r = row(side, h, y, x, diamond);
        assert(r == seq![step_at(side, h, x, y, diamond)] + rest);
        assert forall|i: int| 1 <= i < r.len() implies #[trigger] r[i] == rest[i - 1] by {}
    }
}

proof fn lemma_square_rows_shape(side: int, h: int, y: int)
    requires
        0 < h,
        y % (2 * h) == h,
    ensures
        row_major(square_rows(side, h, y)),
        forall|i: int|
            0 <= i < square_rows(side, h, y).len() ==> {
                let e = #[trigger] square_rows(side, h, y)[i];
                e.y >= y && square_cell(h, e) && e == step_at(side, h, e.x, e.y, false)
            },
    decreases side + 2 * h - y,
{
    if y < side {
        lemma_small_mod(h as nat, 2 * h as nat);
        lemma_row_shape(side, h, y, h, false);
        lemma_step_mod(y, h);
        lemma_square_rows_shape(side, h, y + 2 * h);
        let a = row(side, h, y, h, false);
        let b = square_rows(side, h, y + 2 * h);
        assert forall|i: int| 0 <= i < (a + b).len() implies #[trigger] (a + b)[i] == if i < a.len() {
            a[i]
        } else {
            b[i - a.len()]
        } by {}
    }
}

proof fn lemma_diamond_rows_shape(side: int, h: int, y: int)
    requires
        0 < h,
        0 <= y,
        y % (2 * h) == 0 || y % (2 * h) == h,
    ensures
        row_major(diamond_rows(side, h, y)),
        forall|i: int|
            0 <= i < diamond_rows(side, h, y).len() ==> {
                let e = #[trigger] diamond_rows(side, h, y)[i];
                e.y >= y && diamond_cell(h, e) && e == step_at(side, h, e.x, e.y, true)
            },
    decreases side + h - y,
{
    if y < side {
        lemma_small_mod(h as nat, 2 * h as nat);
        lemma_small_mod(0, 2 * h as nat);
        lemma_row_shape(side, h, y, first_x(h, y), true);
        lemma_half_step_mod(y, h);
        lemma_diamond_rows_shape(side, h, y + h);
        let a = row(side, h, y, first_x(h, y), true);
        let b = diamond_rows(side, h, y + h);
        assert forall|i: int| 0 <= i < (a + b).len() implies #[trigger] (a + b)[i] == if i < a.len() {
            a[i]
        } else {
            b[i - a.len()]
        } by {}
    }
}

/// A multiple of `2h`, or an odd multiple of `h`, is a multiple of `h`.
proof fn lemma_multiple_of_half(a: int, h: int)
    requires
        0 < h,
        a % (2 * h) == 0 || a % (2 * h) == h,
    ensures
        a % h == 0,
{
    lemma_fundamental_div_mod(a, 2 * h);
    let q = a / (2 * h);
    if a % (2 * h) == 0 {
        assert(a == (2 * q) * h) by (nonlinear_arith)
            requires
                a == (2 * h) * q,
        ;
        lemma_mod_multiples_basic(2 * q, h);
    } else {
        assert(a == (2 * q + 1) * h) by (nonlinear_arith)
            requires
                a == (2 * h) * q + h,
        ;
        lemma_mod_multiples_basic(2 * q + 1, h);
    }
}

proof fn lemma_levels_once(side: int, h: int, j: nat)
    requires
        h > 0 ==> h == pow2(j),
    ensures
        distinct_cells(levels_from(side, h)),
        forall|i: int|
            0 <= i < levels_from(side, h).len() ==> {
                let e = #[trigger] levels_from(side, h)[i];
                !(e.x % (2 * h) == 0 && e.y % (2 * h) == 0)
            },
    decreases h,
{
    if h > 0 {
        let deeper = levels_from(side, h / 2);
        if h / 2 > 0 {
            assert(j > 0) by {
                if j == 0 {
                    assert(pow2(0) == 1);
                }
            }
            let jj = (j - 1) as nat;
            assert(pow2(j) == 2 * pow2(jj));
            lemma_levels_once(side, h / 2, jj);
            assert(2 * (h / 2) == h);
        } else {
            lemma_levels_once(side, h / 2, j);
            assert(deeper.len() == 0);
        }
        lemma_small_mod(h as nat, 2 * h as nat);
        lemma_small_mod(0, 2 * h as nat);
        lemma_square_rows_shape(side, h, h);
        lemma_diamond_rows_shape(side, h, 0);
        let sq = square_rows(side, h, h);
        let dm = diamond_rows(side, h, 0);
        let lv = level(side, h);
        let all = levels_from(side, h);
        assert(lv == sq + dm);
        assert(all == lv + deeper);
        assert forall|i: int| 0 <= i < lv.len() implies {
            let e = #[trigger] lv[i];
            e.x % h == 0 && e.y % h == 0 && !(e.x % (2 * h) == 0 && e.y % (2 * h) == 0)
        } by {
            if i < sq.len() {
                assert(lv[i] == sq[i]);
                assert(square_cell(h, sq[i]));
            } else {
                assert(lv[i] == dm[i - sq.len()]);
                assert(diamond_cell(h, dm[i - sq.len()]));
            }
            lemma_multiple_of_half(lv[i].x, h);
            lemma_multiple_of_half(lv[i].y, h);
        }
        assert(distinct_cells(lv)) by {
            assert forall|a: int, b: int| 0 <= a < b < lv.len() implies !(lv[a].x == lv[b].x
                && lv[a].y == lv[b].y) by {
                if b < sq.len() {
                    assert(lv[a] == sq[a] && lv[b] == sq[b]);
                } else if a >= sq.len() {
                    assert(lv[a] == dm[a - sq.len()] && lv[b] == dm[b - sq.len()]);
                } else {
                    assert(lv[a] == sq[a] && lv[b] == dm[b - sq.len()]);
                    assert(square_cell(h, sq[a]));
                    assert(diamond_cell(h, dm[b - sq.len()]));
                }
            }
        }
        assert forall|i: int| 0 <= i < all.len() implies {
            let e = #[trigger] all[i];
            !(e.x % (2 * h) == 0 && e.y % (2 * h) == 0)
        } by {
            if i < lv.len() {
                assert(all[i] == lv[i]);
            } else {
                let e = deeper[i - lv.len()];
                assert(all[i] == e);
                if e.x % (2 * h) == 0 && e.y % (2 * h) == 0 {
                    lemma_multiple_of_half(e.x, h);
                    lemma_multiple_of_half(e.y, h);
                }
            }
        }
        assert forall|a: int, b: int| 0 <= a < b < all.len() implies !(all[a].x == all[b].x
            && all[a].y == all[b].y) by {
            if b < lv.len() {
                assert(all[a] == lv[a] && all[b] == lv[b]);
            } else if a >= lv.len() {
                assert(all[a] == deeper[a - lv.len()] && all[b] == deeper[b - lv.len()]);
            } else {
                assert(all[a] == lv[a] && all[b] == deeper[b - lv.len()]);
            }
        }
    }
}

/// The subdivision of a padded grid writes no cell twice.
pub proof fn lemma_schedule_writes_once(side: int)
    requires
        2 <= side,
        is_padded(side),
    ensures
        distinct_cells(schedule(side)),
{
    let k: nat = choose|k: nat| side == pow2(k) + 1;
    let h = (side - 1) / 2;
    if k == 0 {
        assert(h == 0);
        lemma_levels_once(side, h, 0);
    } else {
        let j = (k - 1) as nat;
        assert(pow2(k) == 2 * pow2(j));
        assert(h == pow2(j));
        lemma_levels_once(side, h, j);
    }
}

/// Cell `(x, y)` is the target of some write of `s`.
pub open spec fn writes_cell(s: Seq<StepView>, x: int, y: int) -> bool {
    exists|i: int| 0 <= i < s.len() && #[trigger] s[i].x == x && s[i].y == y
}

proof fn lemma_writes_cell_concat(a: Seq<StepView>, b: Seq<StepView>, x: int, y: int)
    requires
        writes_cell(a, x, y) || writes_cell(b, x, y),
    ensures
        writes_cell(a + b, x, y),
{
    if writes_cell(a, x, y) {
        let i = choose|i: int| 0 <= i < a.len() && #[trigger] a[i].x == x && a[i].y == y;
        assert((a + b)[i] == a[i]);
    } else {
        let i = choose|i: int| 0 <= i < b.len() && #[trigger] b[i].x == x && b[i].y == y;
        assert((a + b)[i + a.len()] == b[i]);
    }
}

proof fn lemma_row_covers(side: int, h: int, y: int, x0: int, diamond: bool, t: nat)
    requires
        0 < h,
        x0 + 2 * h * t < side,
    ensures
        writes_cell(row(side, h, y, x0, diamond), x0 + 2 * h * t, y),
    decreases t,
{
    let r = row(side, h, y, x0, diamond);
    let rest = row(side, h, y, x0 + 2 * h, diamond);
    assert(x0 < side) by (nonlinear_arith)
        requires
            x0 + 2 * h * t < side,
            0 < h,
    ;
    assert(r == seq![step_at(side, h, x0, y, diamond)] + rest);
    if t == 0 {
        assert(2 * h * t == 0) by (nonlinear_arith)
            requires
                t == 0,
        ;
        assert(r[0] == step_at(side, h, x0, y, diamond));
        assert(r[0].x == x0 + 2 * h * t && r[0].y == y);
    } else {
        let u = (t - 1) as nat;
        assert(x0 + 2 * h * t == (x0 + 2 * h) + 2 * h * u) by (nonlinear_arith)
            requires
                t == u + 1,
        ;
        lemma_row_covers(side, h, y, x0 + 2 * h, diamond, u);
        lemma_writes_cell_concat(seq![step_at(side, h, x0, y, diamond)], rest, x0 + 2 * h * t, y);
    }
}

proof fn lemma_square_rows_cover(side: int, h: int, y0: int, x: int, t: nat)
    requires
        0 < h,
        y0 + 2 * h * t < side,
        0 <= x < side,
        x % (2 * h) == h,
    ensures
        writes_cell(square_rows(side, h, y0), x, y0 + 2 * h * t),
    decreases t,
{
    assert(y0 < side) by (nonlinear_arith)
        requires
            y0 + 2 * h * t < side,
            0 < h,
    ;
    let a = row(side, h, y0, h, false);
    let b = square_rows(side, h, y0 + 2 * h);
    if t == 0 {
        assert(2 * h * t == 0) by (nonlinear_arith)
            requires
                t == 0,
        ;
        lemma_fundamental_div_mod(x, 2 * h);
        let s = x / (2 * h);
        assert(s >= 0) by (nonlinear_arith)
            requires
                x == 2 * h * s + h,
                0 <= x,
                0 < h,
        ;
        lemma_row_covers(side, h, y0, h, false, s as nat);
        lemma_writes_cell_concat(a, b, x, y0 + 2 * h * t);
    } else {
        let u = (t - 1) as nat;
        assert(y0 + 2 * h * t == (y0 + 2 * h) + 2 * h * u) by (nonlinear_arith)
            requires
                t == u + 1,
        ;
        lemma_square_rows_cover(side, h, y0 + 2 * h, x, u);
        lemma_writes_cell_concat(a, b, x, y0 + 2 * h * t);
    }
}

proof fn lemma_diamond_rows_cover(side: int, h: int, y0: int, x: int, t: nat)
    requires
        0 < h,
        y0 + h * t < side,
        0 <= x < side,
        x % (2 * h) == first_x(h, y0 + h * t),
    ensures
        writes_cell(diamond_rows(side, h, y0), x, y0 + h * t),
    decreases t,
{
    assert(y0 < side) by (nonlinear_arith)
        requires
            y0 + h * t < side,
            0 < h,
    ;
    let a = row(side, h, y0, first_x(h, y0), true);
    let b = diamond_rows(side, h, y0 + h);
    if t == 0 {
        assert(h * t == 0) by (nonlinear_arith)
            requires
                t == 0,
        ;
        let x0 = first_x(h, y0);
        lemma_fundamental_div_mod(x, 2 * h);
        let s = x / (2 * h);
        assert(x == x0 + 2 * h * s);
        assert(s >= 0) by (nonlinear_arith)
            requires
                x == 2 * h * s + x0,
                0 <= x0 <= h,
                0 <= x,
                0 < h,
        ;
        lemma_row_covers(side, h, y0, x0, true, s as nat);
        lemma_writes_cell_concat(a, b, x, y0 + h * t);
    } else {
        let u = (t - 1) as nat;
        assert(y0 + h * t == (y0 + h) + h * u) by (nonlinear_arith)
            requires
                t == u + 1,
        ;
        lemma_diamond_rows_cover(side, h, y0 + h, x, u);
        lemma_writes_cell_concat(a, b, x, y0 + h * t);
    }
}

proof fn lemma_level_covers(side: int, h: int, x: int, y: int)
    requires
        0 < h,
        0 <= x < side,
        0 <= y < side,
        x % h == 0,
        y % h == 0,
        !(x % (2 * h) == 0 && y % (2 * h) == 0),
    ensures
        writes_cell(level(side, h), x, y),
{
    lemma_fundamental_div_mod(x, 2 * h);
    lemma_fundamental_div_mod(y, 2 * h);
    lemma_fundamental_div_mod(x % (2 * h), h);
    lemma_fundamental_div_mod(y % (2 * h), h);
    lemma_small_mod(0, 2 * h as nat);
    lemma_mod_mod_half(x, h);
    lemma_mod_mod_half(y, h);
    let sq = square_rows(side, h, h);
    let dm = diamond_rows(side, h, 0);
    if x % (2 * h) == h && y % (2 * h) == h {
        let t = y / (2 * h);
        assert(t >= 0) by (nonlinear_arith)
            requires
                y == 2 * h * t + h,
                0 <= y,
                0 < h,
        ;
        lemma_square_rows_cover(side, h, h, x, t as nat);
        lemma_writes_cell_concat(sq, dm, x, y);
    } else {
        let t = y / h;
        lemma_fundamental_div_mod(y, h);
        assert(t >= 0) by (nonlinear_arith)
            requires
                y == h * t,
                0 <= y,
                0 < h,
        ;
        assert(y == 0 + h * t);
        lemma_diamond_rows_cover(side, h, 0, x, t as nat);
        lemma_writes_cell_concat(sq, dm, x, y);
    }
}

/// The residue modulo `2h` of a multiple of `h` is 0 or `h`.
proof fn lemma_mod_mod_half(a: int, h: int)
    requires
        0 < h,
        a % h == 0,
    ensures
        a % (2 * h) == 0 || a % (2 * h) == h,
{
    lemma_fundamental_div_mod(a, h);
    let q = a / h;
    lemma_fundamental_div_mod(q, 2);
    let c = q / 2;
    if q % 2 == 0 {
        assert(a == (2 * h) * c) by (nonlinear_arith)
            requires
                a == h * q,
                q == 2 * c,
        ;
        lemma_mod_multiples_basic(c, 2 * h);
        assert(a == c * (2 * h)) by (nonlinear_arith)
            requires
                a == (2 * h) * c,
        ;
    } else {
        assert(a == (2 * h) * c + h) by (nonlinear_arith)
            requires
                a == h * q,
                q == 2 * c + 1,
        ;
        lemma_mod_multiples_vanish(c, h, 2 * h);
        lemma_small_mod(h as nat, 2 * h as nat);
    }
}

proof fn lemma_levels_cover(side: int, h: int, j: nat, x: int, y: int)
    requires
        h > 0,
        h == pow2(j),
        0 <= x < side,
        0 <= y < side,
        !(x % (2 * h) == 0 && y % (2 * h) == 0),
    ensures
        writes_cell(levels_from(side, h), x, y),
    decreases h,
{
    let lv = level(side, h);
    let deeper = levels_from(side, h / 2);
    if x % h == 0 && y % h == 0 {
        lemma_level_covers(side, h, x, y);
        lemma_writes_cell_concat(lv, deeper, x, y);
    } else {
        assert(j > 0) by {
            if j == 0 {
                assert(pow2(0) == 1);
                assert(x % 1 == 0 && y % 1 == 0);
            }
        }
        let jj = (j - 1) as nat;
        assert(pow2(j) == 2 * pow2(jj));
        lemma_pow2_positive(jj);
        assert(2 * (h / 2) == h);
        lemma_levels_cover(side, h / 2, jj, x, y);
        lemma_writes_cell_concat(lv, deeper, x, y);
    }
}

/// The subdivision of a padded grid writes every cell but the four corners.
pub proof fn lemma_schedule_covers(side: int, x: int, y: int)
    requires
        2 <= side,
        is_padded(side),
        0 <= x < side,
        0 <= y < side,
        !is_corner(side, x, y),
    ensures
        writes_cell(schedule(side), x, y),
{
    let k: nat = choose|k: nat| side == pow2(k) + 1;
    let h = (side - 1) / 2;
    if k == 0 {
        assert(side == 2);
        assert(false);
    } else {
        let j = (k - 1) as nat;
        lemma_pow2_positive(j);
        assert(pow2(k) == 2 * pow2(j));
        assert(h == pow2(j));
        assert(2 * h == side - 1);
        if x % (2 * h) == 0 && y % (2 * h) == 0 {
            lemma_fundamental_div_mod(x, 2 * h);
            lemma_fundamental_div_mod(y, 2 * h);
            assert(x == 0 || x == side - 1) by (nonlinear_arith)
                requires
                    x == (2 * h) * (x / (2 * h)),
                    0 <= x <= 2 * h,
                    0 < h,
                    side - 1 == 2 * h,
            ;
            assert(y == 0 || y == side - 1) by (nonlinear_arith)
                requires
                    y == (2 * h) * (y / (2 * h)),
                    0 <= y <= 2 * h,
                    0 < h,
                    side - 1 == 2 * h,
            ;
        }
        lemma_levels_cover(side, h, j, x, y);
    }
}

/// Cell `(x, y)` is the target of one of the first `i` writes of `s`.
pub open spec fn written_before(s: Seq<StepView>, i: int, x: int, y: int) -> bool {
    exists|k: int| 0 <= k < i && #[trigger] s[k].x == x && s[k].y == y
}

/// Each write of `s` reads only cells that are seeded corners or were written
/// by an earlier write of `s`.
pub open spec fn reads_written(side: int, s: Seq<StepView>) -> bool {
    forall|i: int, j: int|
        0 <= i < s.len() && 0 <= j < s[i].neighbors.len() ==> {
            let n = #[trigger] s[i].neighbors[j];
            is_corner(side, n.0 as int, n.1 as int) || written_before(s, i, n.0 as int, n.1 as int)
        }
}

/// Taking half a step back from an even or odd multiple of `h`.
proof fn lemma_half_step_back(a: int, h: int)
    requires
        0 < h,
        a % (2 * h) == 0 || a % (2 * h) == h,
    ensures
        a % (2 * h) == 0 ==> (a - h) % (2 * h) == h,
        a % (2 * h) == h ==> (a - h) % (2 * h) == 0,
{
    lemma_fundamental_div_mod(a, 2 * h);
    let q = a / (2 * h);
    lemma_small_mod(h as nat, 2 * h as nat);
    if a % (2 * h) == 0 {
        assert(a - h == (2 * h) * (q - 1) + h) by (nonlinear_arith)
            requires
                a == (2 * h) * q,
        ;
        lemma_mod_multiples_vanish(q - 1, h, 2 * h);
    } else {
        assert(a - h == q * (2 * h)) by (nonlinear_arith)
            requires
                a == (2 * h) * q + h,
        ;
        lemma_mod_multiples_basic(q, 2 * h);
    }
}

/// Cells with both coordinates even multiples of `h` are in `w`.
pub open spec fn coarse_in(side: int, h: int, w: Set<(int, int)>) -> bool {
    forall|x: int, y: int|
        0 <= x < side && 0 <= y < side && x % (2 * h) == 0 && y % (2 * h) == 0 ==> #[trigger] w.contains(
            (x, y),
        )
}

proof fn lemma_levels_causal(side: int, h: int, j: nat, m: int, w: Set<(int, int)>)
    requires
        2 <= side <= MAX_DIM + 1,
        h > 0 ==> h == pow2(j) && side - 1 == 2 * h * m && m >= 1,
        h > 0 ==> coarse_in(side, h, w),
    ensures
        forall|i: int, jn: int|
            0 <= i < levels_from(side, h).len() && 0 <= jn < levels_from(side, h)[i].neighbors.len()
                ==> {
                let n = #[trigger] levels_from(side, h)[i].neighbors[jn];
                w.contains((n.0 as int, n.1 as int)) || written_before(
                    levels_from(side, h),
                    i,
                    n.0 as int,
                    n.1 as int,
                )
            },
    decreases h,
{
    if h > 0 {
        assert(2 * h < side) by (nonlinear_arith)
            requires
                side - 1 == 2 * h * m,
                m >= 1,
                h > 0,
        ;
        lemma_mod_multiples_basic(m, 2 * h);
        assert(side - 1 == m * (2 * h)) by (nonlinear_arith)
            requires
                side - 1 == 2 * h * m,
        ;
        lemma_small_mod(h as nat, 2 * h as nat);
        lemma_small_mod(0, 2 * h as nat);
        lemma_square_rows_shape(side, h, h);
        lemma_diamond_rows_shape(side, h, 0);
        let sq = square_rows(side, h, h);
        let dm = diamond_rows(side, h, 0);
        let lv = level(side, h);
        let deeper = levels_from(side, h / 2);
        let all = levels_from(side, h);
        lemma_levels_sound(side, h, j, m);
        assert(lv == sq + dm);
        assert(all == lv + deeper);
        // A cell of the square pass of this level is written before any diamond.
        assert forall|x: int, y: int|
            0 <= x < side && 0 <= y < side && x % (2 * h) == h && y % (2 * h)
                == h implies #[trigger] writes_cell(sq, x, y) by {
            lemma_fundamental_div_mod(y, 2 * h);
            let t = y / (2 * h);
            assert(t >= 0) by (nonlinear_arith)
                requires
                    y == 2 * h * t + h,
                    0 <= y,
                    0 < h,
            ;
            lemma_square_rows_cover(side, h, h, x, t as nat);
        }
        assert forall|i: int, jn: int|
            0 <= i < lv.len() && 0 <= jn < all[i].neighbors.len() implies {
                let n = #[trigger] all[i].neighbors[jn];
                w.contains((n.0 as int, n.1 as int)) || written_before(all, i, n.0 as int, n.1 as int)
            } by {
            assert(all[i] == lv[i]);
            assert(sound_step(side, all[i]));
            let n = all[i].neighbors[jn];
            if i < sq.len() {
                let e = sq[i];
                assert(lv[i] == e);
                assert(square_cell(h, e) && e == step_at(side, h, e.x, e.y, false));
                lemma_square_fits(side, h, e.x);
                lemma_square_fits(side, h, e.y);
                lemma_half_step_mod(e.x, h);
                lemma_half_step_mod(e.y, h);
                lemma_half_step_back(e.x, h);
                lemma_half_step_back(e.y, h);
                assert(w.contains((n.0 as int, n.1 as int)));
            } else {
                let e = dm[i - sq.len()];
                assert(lv[i] == e);
                assert(diamond_cell(h, e) && e == step_at(side, h, e.x, e.y, true));
                lemma_half_step_mod(e.x, h);
                lemma_half_step_mod(e.y, h);
                if e.x >= h {
                    lemma_half_step_back(e.x, h);
                }
                if e.y >= h {
                    lemma_half_step_back(e.y, h);
                }
                let nx = n.0 as int;
                let ny = n.1 as int;
                assert(0 <= nx < side && 0 <= ny < side);
                if nx % (2 * h) == h && ny % (2 * h) == h {
                    assert(writes_cell(sq, nx, ny));
                    let k = choose|k: int|
                        0 <= k < sq.len() && #[trigger] sq[k].x == nx && sq[k].y == ny;
                    assert(all[k] == sq[k]);
                    assert(written_before(all, i, nx, ny));
                } else {
                    assert(w.contains((nx, ny)));
                }
            }
        }
        let lw = Set::new(|c: (int, int)| writes_cell(lv, c.0, c.1));
        let w2 = w.union(lw);
        if h / 2 > 0 {
            assert(j > 0) by {
                if j == 0 {
                    assert(pow2(0) == 1);
                }
            }
            let jj = (j - 1) as nat;
            assert(pow2(j) == 2 * pow2(jj));
            assert(side - 1 == 2 * (h / 2) * (2 * m)) by (nonlinear_arith)
                requires
                    side - 1 == 2 * h * m,
                    h == 2 * pow2(jj),
                    h / 2 == pow2(jj),
            ;
            assert(2 * (h / 2) == h);
            assert forall|x: int, y: int|
                0 <= x < side && 0 <= y < side && x % (2 * (h / 2)) == 0 && y % (2 * (h / 2)) == 0 implies #[trigger] w2.contains(
                (x, y),
            ) by {
                if x % (2 * h) == 0 && y % (2 * h) == 0 {
                    assert(w.contains((x, y)));
                } else {
                    lemma_level_covers(side, h, x, y);
                    assert(lw.contains((x, y)));
                }
            }
            lemma_levels_causal(side, h / 2, jj, 2 * m, w2);
        } else {
            lemma_levels_causal(side, h / 2, j, m, w2);
        }
        assert forall|i: int, jn: int|
            lv.len() <= i < all.len() && 0 <= jn < all[i].neighbors.len() implies {
                let n = #[trigger] all[i].neighbors[jn];
                w.contains((n.0 as int, n.1 as int)) || written_before(all, i, n.0 as int, n.1 as int)
            } by {
            let d = i - lv.len();
            assert(all[i] == deeper[d]);
            let n = deeper[d].neighbors[jn];
            let nx = n.0 as int;
            let ny = n.1 as int;
            if w.contains((nx, ny)) {
            } else if lw.contains((nx, ny)) {
                let k = choose|k: int| 0 <= k < lv.len() && #[trigger] lv[k].x == nx && lv[k].y == ny;
                assert(all[k] == lv[k]);
                assert(written_before(all, i, nx, ny));
            } else {
                assert(written_before(deeper, d, nx, ny));
                let k = choose|k: int| 0 <= k < d && #[trigger] deeper[k].x == nx && deeper[k].y == ny;
                assert(all[k + lv.len()] == deeper[k]);
                assert(written_before(all, i, nx, ny));
            }
        }
    }
}

/// In the subdivision of a padded grid, each write reads only the seeded
/// corners and cells written by earlier writes.
pub proof fn lemma_schedule_reads_written(side: int)
    requires
        2 <= side <= MAX_DIM + 1,
        is_padded(side),
    ensures
        reads_written(side, schedule(side)),
{
    let k: nat = choose|k: nat| side == pow2(k) + 1;
    let h = (side - 1) / 2;
    let w = Set::new(|c: (int, int)| is_corner(side, c.0, c.1));
    if k == 0 {
        assert(h == 0);
        lemma_levels_causal(side, h, 0, 1, w);
    } else {
        let j = (k - 1) as nat;
        lemma_pow2_positive(j);
        assert(pow2(k) == 2 * pow2(j));
        assert(h == pow2(j));
        assert(2 * h == side - 1);
        assert forall|x: int, y: int|
            0 <= x < side && 0 <= y < side && x % (2 * h) == 0 && y % (2 * h) == 0 implies #[trigger] w.contains(
            (x, y),
        ) by {
            lemma_fundamental_div_mod(x, 2 * h);
            lemma_fundamental_div_mod(y, 2 * h);
            assert(x == 0 || x == side - 1) by (nonlinear_arith)
                requires
                    x == (2 * h) * (x / (2 * h)),
                    0 <= x <= 2 * h,
                    0 < h,
                    side - 1 == 2 * h,
            ;
            assert(y == 0 || y == side - 1) by (nonlinear_arith)
                requires
                    y == (2 * h) * (y / (2 * h)),
                    0 <= y <= 2 * h,
                    0 < h,
                    side - 1 == 2 * h,
            ;
        }
        lemma_levels_causal(side, h, j, 1, w);
    }
}

} // verus!
