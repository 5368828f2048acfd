//! Sizing of the padded square grid: its side is one more than a power of two.
use vstd::prelude::*;

verus! {

/// Largest width or height a heightmap may have: a square grid of this side
/// still fits in the address space.
pub const MAX_DIM: usize = 1073741824;

/// `2^k`.
pub open spec fn pow2(k: nat) -> nat
    decreases k,
{
    if k == 0 {
        1
    } else {
        2 * pow2((k - 1) as nat)
    }
}

/// `s` is of the form `2^k + 1`.
pub open spec fn is_padded(s: int) -> bool {
    exists|k: nat| s == pow2(k) + 1
}

/// `s` is the smallest value of the form `2^k + 1` that is at least `m`.
pub open spec fn is_least_padded(s: int, m: int) -> bool {
    &&& is_padded(s)
    &&& s >= m
    &&& forall|t: int| is_padded(t) && t >= m ==> s <= t
}

/// Doubling `p` until `p + 1` reaches `m`.
pub open spec fn padded_from(p: int, m: int) -> int
    decreases 2 * m - p,
{
    if p <= 0 || p + 1 >= m {
        p + 1
    } else {
        padded_from(2 * p, m)
    }
}

/// The side of the padded grid for a largest dimension `m`.
pub open spec fn padded_side(m: int) -> int {
    padded_from(1, m)
}

pub proof fn lemma_pow2_positive(k: nat)
    ensures
        pow2(k) >= 1,
    decreases k,
{
    if k > 0 {
        lemma_pow2_positive((k - 1) as nat);
    }
}

pub proof fn lemma_pow2_monotone(j: nat, k: nat)
    requires
        j <= k,
    ensures
        pow2(j) <= pow2(k),
    decreases k,
{
    if j < k {
        lemma_pow2_monotone(j, (k - 1) as nat);
        lemma_pow2_positive((k - 1) as nat);
    }
}

proof fn lemma_padded_from(k: nat, m: int)
    requires
        forall|j: nat| j < k ==> pow2(j) + 1 < m,
    ensures
        is_least_padded(padded_from(pow2(k) as int, m), m),
    decreases 2 * m - pow2(k),
{
    lemma_pow2_positive(k);
    let p = pow2(k) as int;
    if p + 1 >= m {
        assert(is_padded(p + 1));
        assert forall|t: int| is_padded(t) && t >= m implies p + 1 <= t by {
            let j = choose|j: nat| t == pow2(j) + 1;
            if j < k {
                assert(pow2(j) + 1 < m);
            } else {
                lemma_pow2_monotone(k, j);
            }
        }
    } else {
        assert(pow2(k + 1) == 2 * p);
        assert forall|j: nat| j < k + 1 implies pow2(j) + 1 < m by {
            if j < k {
            } else {
                assert(j == k);
            }
        }
        lemma_padded_from(k + 1, m);
    }
}

/// The padded side for a largest dimension `m` is the smallest value of the
/// form `2^k + 1` that is at least `m`.
pub proof fn lemma_padded_side_is_least(m: int)
    ensures
        is_least_padded(padded_side(m), m),
{
    assert(pow2(0) == 1);
    lemma_padded_from(0, m);
}

/// Bound on the doubling, so that the executable loop cannot overflow.
proof fn lemma_padded_from_bound(p: int, m: int)
    requires
        1 <= p,
        p < 2 * m,
        m <= MAX_DIM,
    ensures
        padded_from(p, m) <= 2 * m,
    decreases 2 * m - p,
{
    if p + 1 < m {
        lemma_padded_from_bound(2 * p, m);
    }
}

/// The side of the padded square grid for a largest dimension `max_side`:
/// `max_side` itself when `max_side - 1` is a power of two, else the next
/// value of the form `2^k + 1`.
pub fn side_for(max_side: usize) -> (r: usize)
    requires
        2 <= max_side <= MAX_DIM,
    ensures
        r == padded_side(max_side as int),
        is_least_padded(r as int, max_side as int),
{
    proof {
        lemma_padded_side_is_least(max_side as int);
        lemma_padded_from_bound(1, max_side as int);
    }
    let mut p: usize = 1;
    while p + 1 < max_side
        invariant
            1 <= p < 2 * max_side,
            max_side <= MAX_DIM,
            padded_from(p as int, max_side as int) == padded_side(max_side as int),
        decreases 2 * max_side - p,
    {
        p = 2 * p;
    }
    p + 1
}

} // verus!
