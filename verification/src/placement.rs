//! Sizing of the square patches in which particles are placed.

use vstd::prelude::*;

verus! {

/// `s` is the side of the largest square that holds at most `n` particles.
pub open spec fn is_square_side(n: int, s: int) -> bool {
    0 <= s && s * s <= n < (s + 1) * (s + 1)
}

/// Side of the largest square that holds at most `n` particles: the
/// square root of `n`, rounded down.
pub open spec fn square_side(n: int) -> int {
    choose|s: int| is_square_side(n, s)
}

/// Number of particles a request for `n` actually places.
pub open spec fn square_count(n: int) -> int {
    square_side(n) * square_side(n)
}

/// At most one side fits a given count.
pub proof fn lemma_square_side_unique(n: int, s: int, t: int)
    requires
        is_square_side(n, s),
        is_square_side(n, t),
    ensures
        s == t,
{
    if s < t {
        assert((s + 1) * (s + 1) <= t * t) by (nonlinear_arith)
            requires
                0 <= s,
                s + 1 <= t,
        ;
    }
    if t < s {
        assert((t + 1) * (t + 1) <= s * s) by (nonlinear_arith)
            requires
                0 <= t,
                t + 1 <= s,
        ;
    }
}

/// A side that fits is the side.
pub proof fn lemma_square_side_is(n: int, s: int)
    requires
        is_square_side(n, s),
    ensures
        square_side(n) == s,
        square_count(n) == s * s,
        square_count(n) <= n,
{
    lemma_square_side_unique(n, s, square_side(n));
}

/// From a side whose square fits, the largest such side can be reached.
proof fn lemma_side_from(n: int, s: int)
    requires
        0 <= s,
        s * s <= n,
    ensures
        is_square_side(n, square_side(n)),
    decreases n - s * s,
{
    if (s + 1) * (s + 1) <= n {
        assert((s + 1) * (s + 1) > s * s) by (nonlinear_arith)
            requires
                0 <= s,
        ;
        lemma_side_from(n, s + 1);
    } else {
        assert(is_square_side(n, s));
    }
}

/// Every count has a side, and a placement never adds more particles than
/// were asked for.
pub proof fn lemma_square_side_fits(n: int)
    requires
        0 <= n,
    ensures
        is_square_side(n, square_side(n)),
        0 <= square_count(n) <= n,
{
    lemma_side_from(n, 0);
    let s = square_side(n);
    assert(0 <= s * s) by (nonlinear_arith);
}

/// Computes the side of the largest square that holds at most `n`
/// particles.
pub fn isqrt(n: usize) -> (s: usize)
    ensures
        is_square_side(n as int, s as int),
        s == square_side(n as int),
        s * s <= n,
{
    let target: u128 = n as u128;
    let mut lo: u128 = 0;
    let mut hi: u128 = 0x1_0000_0000;
    assert(0x1_0000_0000u128 * 0x1_0000_0000u128 > usize::MAX) by (nonlinear_arith);
    while hi - lo > 1
        invariant
            lo < hi <= 0x1_0000_0000,
            lo * lo <= target,
            hi * hi > target,
            target == n,
        decreases hi - lo,
    {
        let mid: u128 = lo + (hi - lo) / 2;
        assert(mid * mid <= 0x1_0000_0000 * 0x1_0000_0000) by (nonlinear_arith)
            requires
                mid <= 0x1_0000_0000,
        ;
        if mid * mid <= target {
            lo = mid;
        } else {
            hi = mid;
        }
    }
    assert(lo <= target) by (nonlinear_arith)
        requires
            lo * lo <= target,
            0 <= lo,
    ;
    proof {
        lemma_square_side_is(n as int, lo as int);
    }
    lo as usize
}

} // verus!
