//! How the exponential growth rule behaves over many expansions.
use vstd::prelude::*;
use crate::expandable_grid::{ExpandableGrid, high_growth, low_growth};
use crate::util::exp_growth;
use crate::vector::{IVec2, UVec2};

verus! {

/// One axis at `origin` of length `len`, after it is expanded to fit the
/// coordinate `p`: the new origin and length.
pub open spec fn axis_fit(origin: int, len: int, p: int) -> (int, int) {
    let low = low_growth(origin, len, p);
    (origin - low, len + low + high_growth(origin, len, p + 1))
}

/// How many times an axis at `origin` of length `len` grows when it is
/// expanded to fit `start`, `start + step`, ..., `start + (count - 1) * step`
/// in turn.
pub open spec fn growths_along(origin: int, len: int, start: int, step: int, count: nat) -> nat
    decreases count,
{
    if count == 0 {
        0
    } else {
        let next = axis_fit(origin, len, start);
        (if next == (origin, len) { 0nat } else { 1nat }) + growths_along(
            next.0,
            next.1,
            start + step,
            step,
            (count - 1) as nat,
        )
    }
}

/// Two to the power `k`.
pub open spec fn pow2(k: nat) -> nat
    decreases k,
{
    if k == 0 {
        1
    } else {
        2 * pow2((k - 1) as nat)
    }
}

/// Expanding a non-empty grid to fit a point acts on each axis alone, as
/// `axis_fit` describes.
pub proof fn lemma_point_fit_by_axis<T>(g: ExpandableGrid<T>, p: IVec2)
    requires
        !g.is_empty_spec(),
    ensures
        (g.fit_origin(p, UVec2 { x: 1, y: 1 }).0, g.fit_size(p, UVec2 { x: 1, y: 1 }).0)
            == axis_fit(g.origin.x as int, g.size.x as int, p.x as int),
        (g.fit_origin(p, UVec2 { x: 1, y: 1 }).1, g.fit_size(p, UVec2 { x: 1, y: 1 }).1)
            == axis_fit(g.origin.y as int, g.size.y as int, p.y as int),
{
}

/// An axis at `origin` of length `len` that is fitted to consecutive
/// coordinates from `start`, with `start` inside it or just past its end,
/// grows at most `j` times when `len * 2^j` already reaches past the last.
proof fn lemma_growths_bounded(origin: int, len: int, start: int, count: nat, j: nat)
    requires
        len >= 1,
        origin <= start <= origin + len,
        start + count <= origin + len * pow2(j),
    ensures
        growths_along(origin, len, start, 1, count) <= j,
    decreases count,
{
    if count > 0 {
        let next = axis_fit(origin, len, start);
        if start < origin + len {
            assert(next == (origin, len));
            lemma_growths_bounded(origin, len, start + 1, (count - 1) as nat, j);
        } else {
            assert(exp_growth(1, len) == len);
            assert(next == (origin, 2 * len));
            if j == 0 {
                assert(pow2(j) == 1);
                assert(len * pow2(j) == len) by (nonlinear_arith)
                    requires
                        pow2(j) == 1,
                ;
                assert(false);
            }
            let j1 = (j - 1) as nat;
            assert(len * pow2(j) == 2 * len * pow2(j1)) by (nonlinear_arith)
                requires
                    pow2(j) == 2 * pow2(j1),
            ;
            lemma_growths_bounded(origin, 2 * len, start + 1, (count - 1) as nat, j1);
        }
    }
}

/// The downward counterpart of `lemma_growths_bounded`: an axis fitted to
/// consecutive coordinates going down from `start`, with `start` inside it or
/// just below it, grows at most `j` times when its far end less `len * 2^j`
/// already reaches below the last.
proof fn lemma_growths_bounded_down(origin: int, len: int, start: int, count: nat, j: nat)
    requires
        len >= 1,
        origin - 1 <= start < origin + len,
        start - count + 1 >= origin + len - len * pow2(j),
    ensures
        growths_along(origin, len, start, -1, count) <= j,
    decreases count,
{
    if count > 0 {
        let next = axis_fit(origin, len, start);
        if start >= origin {
            assert(next == (origin, len));
            lemma_growths_bounded_down(origin, len, start - 1, (count - 1) as nat, j);
        } else {
            assert(exp_growth(1, len) == len);
            assert(next == (origin - len, 2 * len));
            if j == 0 {
                assert(pow2(j) == 1);
                assert(len * pow2(j) == len) by (nonlinear_arith)
                    requires
                        pow2(j) == 1,
                ;
                assert(false);
            }
            let j1 = (j - 1) as nat;
            assert(len * pow2(j) == 2 * len * pow2(j1)) by (nonlinear_arith)
                requires
                    pow2(j) == 2 * pow2(j1),
            ;
            lemma_growths_bounded_down(origin - len, 2 * len, start - 1, (count - 1) as nat, j1);
        }
    }
}

/// Growth is amortized: once an axis holds the single coordinate `x0`,
/// expanding it to fit `x0 + 1`, ..., `x0 + n - 1` in turn makes it grow at
/// most `k` times whenever `n <= 2^k`, that is a logarithmic number of
/// reallocations rather than one per point.
pub proof fn lemma_monotone_growth_logarithmic(x0: int, n: nat, k: nat)
    requires
        1 <= n <= pow2(k),
    ensures
        growths_along(x0, 1, x0 + 1, 1, (n - 1) as nat) <= k,
{
    lemma_growths_bounded(x0, 1, x0 + 1, (n - 1) as nat, k);
}

/// Growth is amortized in the decreasing direction too: once an axis holds
/// the single coordinate `x0`, expanding it to fit `x0 - 1`, ...,
/// `x0 - (n - 1)` in turn makes it grow at most `k` times whenever
/// `n <= 2^k`.
pub proof fn lemma_monotone_growth_logarithmic_down(x0: int, n: nat, k: nat)
    requires
        1 <= n <= pow2(k),
    ensures
        growths_along(x0, 1, x0 - 1, -1, (n - 1) as nat) <= k,
{
    lemma_growths_bounded_down(x0, 1, x0 - 1, (n - 1) as nat, k);
}

} // verus!
