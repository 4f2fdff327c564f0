//! The pixels of a straight line between two integer points.
//!
//! A line from `(x0, y0)` to `(x1, y1)` takes as many steps as its longer side has pixels.
//! After `k` steps it has advanced `k` pixels along the longer side and, along the shorter
//! one, the multiple of the slope nearest to it (a tie goes to the smaller offset).

use vstd::prelude::*;

verus! {

/// How far apart two coordinates are.
pub open spec fn distance(a: int, b: int) -> int {
    if a <= b {
        b - a
    } else {
        a - b
    }
}

/// The coordinate that lies `p` pixels from `a` on the way to `b`.
pub open spec fn toward(a: int, b: int, p: int) -> int {
    if a < b {
        a + p
    } else {
        a - p
    }
}

/// The number of steps of the line from `(x0, y0)` to `(x1, y1)`.
pub open spec fn step_count(x0: int, y0: int, x1: int, y1: int) -> int {
    if distance(x0, x1) >= distance(y0, y1) {
        distance(x0, x1)
    } else {
        distance(y0, y1)
    }
}

/// The integer nearest to `a / n`; an exact half is rounded down.
pub open spec fn round_half_down(a: int, n: int) -> int {
    (2 * a + n - 1) / (2 * n)
}

/// How far a line has come along a side of length `d` after `k` of its `n` steps.
pub open spec fn progress(d: int, n: int, k: int) -> int {
    if n <= 0 {
        0
    } else {
        round_half_down(d * k, n)
    }
}

/// The point reached after `k` steps on the line from `(x0, y0)` to `(x1, y1)`.
pub open spec fn line_point(x0: int, y0: int, x1: int, y1: int, k: int) -> (int, int) {
    let n = step_count(x0, y0, x1, y1);
    (
        toward(x0, x1, progress(distance(x0, x1), n, k)),
        toward(y0, y1, progress(distance(y0, y1), n, k)),
    )
}

/// The running error term that decides the next step of a line which has advanced
/// `nx` of `dx` pixels horizontally and `ny` of `dy` pixels vertically.
pub open spec fn error_term(dx: int, dy: int, nx: int, ny: int) -> int {
    dx - dy + dx * ny - dy * nx
}

/// `round_half_down(a, n)` lies within half a unit of `a / n`.
pub proof fn lemma_round_bounds(a: int, n: int)
    requires
        n > 0,
    ensures
        2 * a - n <= 2 * n * round_half_down(a, n) < 2 * a + n,
{
    let q = round_half_down(a, n);
    vstd::arithmetic::div_mod::lemma_fundamental_div_mod(2 * a + n - 1, 2 * n);
    vstd::arithmetic::div_mod::lemma_mod_bound(2 * a + n - 1, 2 * n);
    assert((2 * n) * q == 2 * n * q) by (nonlinear_arith);
}

/// Only one integer lies within half a unit of `a / n` on the side that
/// `round_half_down` picks.
pub proof fn lemma_round_unique(a: int, n: int, r: int)
    requires
        n > 0,
        2 * a - n <= 2 * n * r < 2 * a + n,
    ensures
        round_half_down(a, n) == r,
{
    let q = round_half_down(a, n);
    lemma_round_bounds(a, n);
    assert(q == r) by (nonlinear_arith)
        requires
            n > 0,
            2 * a - n <= 2 * n * r < 2 * a + n,
            2 * a - n <= 2 * n * q < 2 * a + n,
    ;
}

/// A line has made no progress before its first step and all of it after its last.
pub proof fn lemma_progress_ends(d: int, n: int)
    requires
        n > 0,
    ensures
        progress(d, n, 0) == 0,
        progress(d, n, n) == d,
{
    assert(d * 0 == 0);
    assert(2 * n * 0 == 0);
    lemma_round_unique(0, n, 0);
    assert(2 * n * d == 2 * (d * n)) by (nonlinear_arith);
    lemma_round_unique(d * n, n, d);
}

/// A line never leaves the span of a side: its progress along a side of length `d` lies
/// between nothing and `d`.
pub proof fn lemma_progress_range(d: int, n: int, k: int)
    requires
        0 <= d <= n,
        0 <= k <= n,
    ensures
        0 <= progress(d, n, k) <= d,
{
    if n > 0 {
        let p = progress(d, n, k);
        lemma_round_bounds(d * k, n);
        assert(0 <= p <= d) by (nonlinear_arith)
            requires
                n > 0,
                0 <= d <= n,
                0 <= k <= n,
                2 * (d * k) - n <= 2 * n * p < 2 * (d * k) + n,
        ;
    }
}

/// Along its longer side a line advances one pixel with every step.
pub proof fn lemma_progress_major(n: int, k: int)
    requires
        n > 0,
    ensures
        progress(n, n, k) == k,
{
    assert(2 * n * k == 2 * (n * k)) by (nonlinear_arith);
    lemma_round_unique(n * k, n, k);
}

/// One step of the error-driven walk lands on the next point of the line: the
/// error term tells exactly on which sides the progress grows by one.
pub proof fn lemma_walk_step(dx: int, dy: int, k: int)
    requires
        dx >= 0,
        dy >= 0,
        0 <= k < (if dx >= dy { dx } else { dy }),
    ensures
        ({
            let n = if dx >= dy { dx } else { dy };
            let nx = progress(dx, n, k);
            let ny = progress(dy, n, k);
            let err = error_term(dx, dy, nx, ny);
            &&& progress(dx, n, k + 1) == (if 2 * err > -dy { nx + 1 } else { nx })
            &&& progress(dy, n, k + 1) == (if 2 * err < dx { ny + 1 } else { ny })
            &&& error_term(dx, dy, progress(dx, n, k + 1), progress(dy, n, k + 1)) == err - (if 2 * err
                > -dy { dy } else { 0 }) + (if 2 * err < dx { dx } else { 0 })
            &&& -n <= 2 * (err - dx + dy) <= n
        }),
{
    let n = if dx >= dy { dx } else { dy };
    let nx = progress(dx, n, k);
    let ny = progress(dy, n, k);
    let err = error_term(dx, dy, nx, ny);
    lemma_round_bounds(dx * k, n);
    lemma_round_bounds(dy * k, n);
    if dx >= dy {
        lemma_progress_major(n, k);
        lemma_progress_major(n, k + 1);
        let ny1 = if 2 * err < dx { ny + 1 } else { ny };
        let p = dx * ny;
        let q = dy * k;
        assert(2 * n * ny == 2 * p) by (nonlinear_arith)
            requires
                n == dx,
                p == dx * ny,
        ;
        assert(dy * (k + 1) == q + dy) by (nonlinear_arith)
            requires
                q == dy * k,
        ;
        assert(2 * n * ny1 == 2 * p + (if 2 * err < dx { 2 * n } else { 0 })) by (nonlinear_arith)
            requires
                n == dx,
                p == dx * ny,
                ny1 == (if 2 * err < dx { ny + 1 } else { ny }),
        ;
        if dx == dy {
            assert(p == q);
        }
        lemma_round_unique(dy * (k + 1), n, ny1);
        assert(dx * ny1 == p + (if 2 * err < dx { dx } else { 0 })) by (nonlinear_arith)
            requires
                p == dx * ny,
                ny1 == (if 2 * err < dx { ny + 1 } else { ny }),
        ;
    } else {
        lemma_progress_major(n, k);
        lemma_progress_major(n, k + 1);
        let nx1 = if 2 * err > -dy { nx + 1 } else { nx };
        let p = dx * k;
        let q = dy * nx;
        assert(2 * n * nx == 2 * q) by (nonlinear_arith)
            requires
                n == dy,
                q == dy * nx,
        ;
        assert(dx * (k + 1) == p + dx) by (nonlinear_arith)
            requires
                p == dx * k,
        ;
        assert(2 * n * nx1 == 2 * q + (if 2 * err > -dy { 2 * n } else { 0 })) by (nonlinear_arith)
            requires
                n == dy,
                q == dy * nx,
                nx1 == (if 2 * err > -dy { nx + 1 } else { nx }),
        ;
        lemma_round_unique(dx * (k + 1), n, nx1);
        assert(dy * nx1 == q + (if 2 * err > -dy { dy } else { 0 })) by (nonlinear_arith)
            requires
                q == dy * nx,
                nx1 == (if 2 * err > -dy { nx + 1 } else { nx }),
        ;
    }
}

/// A line starts at its first point and ends at its second.
pub proof fn lemma_line_ends(x0: int, y0: int, x1: int, y1: int)
    ensures
        line_point(x0, y0, x1, y1, 0) == (x0, y0),
        line_point(x0, y0, x1, y1, step_count(x0, y0, x1, y1)) == (x1, y1),
{
    let n = step_count(x0, y0, x1, y1);
    if n > 0 {
        lemma_progress_ends(distance(x0, x1), n);
        lemma_progress_ends(distance(y0, y1), n);
    }
}

/// A line has no gaps and never turns back: from one point to the next it moves by one
/// pixel along its longer side and by at most one, in the direction of its end, along
/// the shorter.
pub proof fn lemma_line_connected(x0: int, y0: int, x1: int, y1: int, k: int)
    requires
        0 <= k < step_count(x0, y0, x1, y1),
    ensures
        ({
            let from = line_point(x0, y0, x1, y1, k);
            let to = line_point(x0, y0, x1, y1, k + 1);
            &&& to.0 == from.0 || to.0 == toward(from.0, x1, 1)
            &&& to.1 == from.1 || to.1 == toward(from.1, y1, 1)
            &&& to != from
            &&& distance(to.0, x1) <= distance(from.0, x1)
            &&& distance(to.1, y1) <= distance(from.1, y1)
        }),
{
    let dx = distance(x0, x1);
    let dy = distance(y0, y1);
    let n = step_count(x0, y0, x1, y1);
    lemma_walk_step(dx, dy, k);
    lemma_progress_major(n, k);
    lemma_progress_major(n, k + 1);
    lemma_progress_range(dx, n, k);
    lemma_progress_range(dy, n, k);
    lemma_progress_range(dx, n, k + 1);
    lemma_progress_range(dy, n, k + 1);
}

/// A line stays close to the straight line between its ends: at each of its points,
/// the offset along the shorter side is within half a pixel of where the straight line
/// runs.
pub proof fn lemma_line_close(x0: int, y0: int, x1: int, y1: int, k: int)
    requires
        0 <= k <= step_count(x0, y0, x1, y1),
    ensures
        ({
            let n = step_count(x0, y0, x1, y1);
            let px = progress(distance(x0, x1), n, k);
            let py = progress(distance(y0, y1), n, k);
            &&& line_point(x0, y0, x1, y1, k) == (toward(x0, x1, px), toward(y0, y1, py))
            &&& -n <= 2 * (n * px - distance(x0, x1) * k) <= n
            &&& -n <= 2 * (n * py - distance(y0, y1) * k) <= n
        }),
{
    let n = step_count(x0, y0, x1, y1);
    let dx = distance(x0, x1);
    let dy = distance(y0, y1);
    if n > 0 {
        lemma_round_bounds(dx * k, n);
        lemma_round_bounds(dy * k, n);
        let px = progress(dx, n, k);
        let py = progress(dy, n, k);
        assert(2 * n * px == 2 * (n * px) && 2 * n * py == 2 * (n * py)) by (nonlinear_arith);
    } else {
        assert(dx * k == 0 && dy * k == 0) by (nonlinear_arith)
            requires
                dx == 0,
                dy == 0,
        ;
    }
}

} // verus!
