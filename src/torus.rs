//! Coordinate wrapping: a bounded axis behaves as a circle, so a bounded
//! board is a torus.
use vstd::prelude::*;
use vstd::arithmetic::div_mod::{
    lemma_fundamental_div_mod_converse, lemma_mod_bound,
    lemma_mod_multiples_vanish, lemma_small_mod, lemma_mod_twice, lemma_add_mod_noop, lemma_fundamental_div_mod,
};

verus! {

/// `x` mapped into `[lo, hi)` by adding a multiple of `hi - lo`.
pub open spec fn wrap_spec(x: int, lo: int, hi: int) -> int
    recommends
        lo < hi,
{
    lo + (x - lo) % (hi - lo)
}

/// Lowest coordinate of an axis of `n` cells.
pub open spec fn axis_lo(n: int) -> int {
    -(n / 2)
}

/// One past the highest coordinate of an axis of `n` cells.
pub open spec fn axis_hi(n: int) -> int {
    n - n / 2
}

/// A coordinate on an axis of the given extent; an axis without extent is unbounded.
pub open spec fn wrap_axis(x: int, extent: Option<usize>) -> int {
    match extent {
        Some(n) => wrap_spec(x, axis_lo(n as int), axis_hi(n as int)),
        None => x,
    }
}

/// An extent the board can use: at least one cell, and coordinates fit in `isize`.
pub open spec fn valid_extent(extent: Option<usize>) -> bool {
    match extent {
        Some(n) => 1 <= n <= isize::MAX,
        None => true,
    }
}

/// The coordinate is one that wrapping leaves as it is.
pub open spec fn on_axis(x: int, extent: Option<usize>) -> bool {
    match extent {
        Some(n) => axis_lo(n as int) <= x < axis_hi(n as int),
        None => true,
    }
}

pub proof fn lemma_wrap_range(x: int, lo: int, hi: int)
    requires
        lo < hi,
    ensures
        lo <= wrap_spec(x, lo, hi) < hi,
{
    lemma_mod_bound(x - lo, hi - lo);
}

pub proof fn lemma_wrap_identity(x: int, lo: int, hi: int)
    requires
        lo <= x < hi,
    ensures
        wrap_spec(x, lo, hi) == x,
{
    lemma_small_mod((x - lo) as nat, (hi - lo) as nat);
}

/// Wrapping is periodic: moving `x` by any whole number of laps of the
/// axis does not change where it lands.
pub proof fn lemma_wrap_periodic(x: int, k: int, lo: int, hi: int)
    requires
        lo < hi,
    ensures
        wrap_spec(x + k * (hi - lo), lo, hi) == wrap_spec(x, lo, hi),
{
    assert(x + k * (hi - lo) - lo == (x - lo) + k * (hi - lo)) by (nonlinear_arith);
    lemma_mod_multiples_vanish(k, x - lo, hi - lo);
    assert((hi - lo) * k == k * (hi - lo)) by (nonlinear_arith);
}

/// Wrapping before an offset is added changes nothing once the sum is wrapped.
pub proof fn lemma_wrap_shift(x: int, y: int, lo: int, hi: int)
    requires
        lo < hi,
    ensures
        wrap_spec(wrap_spec(x, lo, hi) + y, lo, hi) == wrap_spec(x + y, lo, hi),
{
    let m = hi - lo;
    lemma_add_mod_noop(x - lo, y, m);
    lemma_mod_twice(x - lo, m);
    lemma_add_mod_noop((x - lo) % m, y, m);
    assert(wrap_spec(x, lo, hi) + y - lo == (x - lo) % m + y);
}

pub proof fn lemma_wrap_axis_props(x: int, extent: Option<usize>)
    requires
        valid_extent(extent),
    ensures
        on_axis(wrap_axis(x, extent), extent),
        on_axis(x, extent) ==> wrap_axis(x, extent) == x,
{
    if let Some(n) = extent {
        lemma_wrap_range(x, axis_lo(n as int), axis_hi(n as int));
        if on_axis(x, extent) {
            lemma_wrap_identity(x, axis_lo(n as int), axis_hi(n as int));
        }
    }
}

pub proof fn lemma_wrap_axis_shift(x: int, y: int, extent: Option<usize>)
    requires
        valid_extent(extent),
    ensures
        wrap_axis(wrap_axis(x, extent) + y, extent) == wrap_axis(x + y, extent),
{
    if let Some(n) = extent {
        lemma_wrap_shift(x, y, axis_lo(n as int), axis_hi(n as int));
    }
}

/// Maps `x` into `[min_val, max_val)`, as on a circle of `max_val - min_val` cells.
pub fn cycle(x: isize, min_val: isize, max_val: isize) -> (r: isize)
    requires
        min_val < max_val,
        max_val - min_val <= isize::MAX,
    ensures
        r == wrap_spec(x as int, min_val as int, max_val as int),
{
    let cnt: u128 = (max_val as i128 - min_val as i128) as u128;
    let d: i128 = x as i128 - min_val as i128;
    let m: u128;
    if d >= 0 {
        m = (d as u128) % cnt;
    } else {
        let q: u128 = ((-d) as u128) % cnt;
        let qd: u128 = ((-d) as u128) / cnt;
        proof {
            lemma_mod_bound(-d as int, cnt as int);
            lemma_fundamental_div_mod(-d as int, cnt as int);
            assert(-d == qd * cnt + q) by (nonlinear_arith)
                requires -d == cnt * qd + q;
        }
        if q == 0 {
            m = 0;
            proof {
                assert(d == (-(qd as int)) * cnt + 0) by (nonlinear_arith)
                    requires -d == qd * cnt + q, q == 0;
                lemma_fundamental_div_mod_converse(d as int, cnt as int, -(qd as int), 0);
            }
        } else {
            m = cnt - q;
            proof {
                assert(d == (-(qd as int) - 1) * cnt + (cnt - q)) by (nonlinear_arith)
                    requires -d == qd * cnt + q;
                lemma_fundamental_div_mod_converse(d as int, cnt as int, -(qd as int) - 1, (cnt - q) as int);
            }
        }
    }
    proof {
        lemma_mod_bound(d as int, cnt as int);
    }
    (min_val as i128 + m as i128) as isize
}

/// Wraps a coordinate into `[left, right)`; one already inside is returned as it is.
pub fn bound_coordinate(left: isize, right: isize, coord: isize) -> (r: isize)
    requires
        left < right,
        right - left <= isize::MAX,
    ensures
        r == wrap_spec(coord as int, left as int, right as int),
{
    if coord < left || coord >= right {
        cycle(coord, left, right)
    } else {
        proof {
            lemma_wrap_identity(coord as int, left as int, right as int);
        }
        coord
    }
}

/// The coordinate on an axis of the given extent (unchanged where the axis is unbounded).
pub fn wrap_on(x: isize, extent: Option<usize>) -> (r: isize)
    requires
        valid_extent(extent),
    ensures
        r == wrap_axis(x as int, extent),
{
    match extent {
        Some(n) => {
            let left: usize = n / 2;
            let right: usize = n - left;
            bound_coordinate(-(left as isize), right as isize, x)
        },
        None => x,
    }
}

} // verus!
