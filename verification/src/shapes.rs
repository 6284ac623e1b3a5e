//! The three piecewise-linear membership shapes.
//!
//! Positions on a variable's axis are fixed-point `i64` values (the caller
//! picks the scale).  Each shape maps a position to a membership degree in
//! `[0, clip]`; the ghost functions [`grade_deg`], [`inverse_grade_deg`] and
//! [`triangle_deg`] state the result exactly, over rational positions, and
//! the executable `fuzzify` methods are proved to return it.

use crate::rat::{
    lemma_q_cmp_consts, lemma_q_le_lt_trans, lemma_q_le_trans, lemma_q_lt_le_trans,
    lemma_q_min_monotone, q_eq, q_in_unit, q_int, q_le, q_lt, q_min, q_one, q_wf, q_zero, Q, Rat,
};
use vstd::arithmetic::mul::lemma_mul_strictly_positive;
use vstd::prelude::*;

verus! {

/// Largest magnitude of a breakpoint or of a fuzzified position.  Keeps every
/// intermediate numerator and denominator comfortably inside `Rat`'s range.
pub const COORD_LIMIT: i64 = 1_000_000_000;

/// Ramp from 0 at `x0` up to 1 at `x1`, flat beyond on either side:
/// an unbounded "very high" set.
#[derive(Clone, Debug)]
pub struct Grade {
    pub name: String,
    pub x0: i64,
    pub x1: i64,
    pub clip: Rat,
}

/// Mirror of `Grade`: 1 below `x0`, ramp down to 0 at `x1`, flat beyond:
/// an unbounded "very low" set.
#[derive(Clone, Debug)]
pub struct InverseGrade {
    pub name: String,
    pub x0: i64,
    pub x1: i64,
    pub clip: Rat,
}

/// Rises from 0 at `x0` to 1 at `x1`, falls back to 0 at `x2`: a bounded
/// middle set.  Both edges are normalised by the rising span `x1 - x0`, so a
/// triangle with unequal spans is deliberately asymmetric.
#[derive(Clone, Debug)]
pub struct Triangle {
    pub name: String,
    pub x0: i64,
    pub x1: i64,
    pub x2: i64,
    pub clip: Rat,
}

impl Grade {
    /// Strictly increasing breakpoints within range, and a clip in `[0, 1]`.
    pub open spec fn wf(self) -> bool {
        -COORD_LIMIT <= self.x0 && self.x0 < self.x1 && self.x1 <= COORD_LIMIT && self.clip.wf()
            && q_in_unit(self.clip@)
    }
}

impl InverseGrade {
    /// Strictly increasing breakpoints within range, and a clip in `[0, 1]`.
    pub open spec fn wf(self) -> bool {
        -COORD_LIMIT <= self.x0 && self.x0 < self.x1 && self.x1 <= COORD_LIMIT && self.clip.wf()
            && q_in_unit(self.clip@)
    }
}

impl Triangle {
    /// Strictly increasing breakpoints within range, and a clip in `[0, 1]`.
    pub open spec fn wf(self) -> bool {
        -COORD_LIMIT <= self.x0 && self.x0 < self.x1 && self.x1 < self.x2 && self.x2 <= COORD_LIMIT
            && self.clip.wf() && q_in_unit(self.clip@)
    }
}

/// The uncapped membership of position `p` in a `Grade`.
pub open spec fn grade_raw(g: Grade, p: Q) -> Q {
    if q_le(q_int(g.x1 as int), p) {
        q_one()
    } else if q_le(p, q_int(g.x0 as int)) {
        q_zero()
    } else {
        Q { n: p.n - (g.x0 as int) * p.d, d: (g.x1 as int - g.x0 as int) * p.d }
    }
}

/// The membership of position `p` in a `Grade`, capped at the clip.
pub open spec fn grade_deg(g: Grade, p: Q) -> Q {
    q_min(grade_raw(g, p), g.clip@)
}

/// The uncapped membership of position `p` in an `InverseGrade`.
pub open spec fn inverse_grade_raw(g: InverseGrade, p: Q) -> Q {
    if q_le(p, q_int(g.x0 as int)) {
        q_one()
    } else if q_le(q_int(g.x1 as int), p) {
        q_zero()
    } else {
        Q { n: (g.x1 as int) * p.d - p.n, d: (g.x1 as int - g.x0 as int) * p.d }
    }
}

/// The membership of position `p` in an `InverseGrade`, capped at the clip.
pub open spec fn inverse_grade_deg(g: InverseGrade, p: Q) -> Q {
    q_min(inverse_grade_raw(g, p), g.clip@)
}

/// The uncapped membership of position `p` in a `Triangle`.  The falling
/// edge divides by the rising span `x1 - x0`, so its raw value can exceed 1;
/// the cap brings it back into `[0, clip]`.
pub open spec fn triangle_raw(t: Triangle, p: Q) -> Q {
    if q_le(q_int(t.x0 as int), p) && q_le(p, q_int(t.x1 as int)) {
        Q { n: p.n - (t.x0 as int) * p.d, d: (t.x1 as int - t.x0 as int) * p.d }
    } else if q_le(q_int(t.x1 as int), p) && q_le(p, q_int(t.x2 as int)) {
        Q { n: (t.x2 as int) * p.d - p.n, d: (t.x1 as int - t.x0 as int) * p.d }
    } else {
        q_zero()
    }
}

/// The membership of position `p` in a `Triangle`, capped at the clip.
pub open spec fn triangle_deg(t: Triangle, p: Q) -> Q {
    q_min(triangle_raw(t, p), t.clip@)
}

/// `grade_raw` is a well-formed degree in `[0, 1]`.
pub proof fn lemma_grade_raw_wf(g: Grade, p: Q)
    requires
        g.wf(),
        q_wf(p),
    ensures
        q_wf(grade_raw(g, p)),
        q_in_unit(grade_raw(g, p)),
{
    let raw = grade_raw(g, p);
    if !q_le(q_int(g.x1 as int), p) && !q_le(p, q_int(g.x0 as int)) {
        lemma_mul_strictly_positive(g.x1 as int - g.x0 as int, p.d);
        assert(raw.n <= raw.d) by (nonlinear_arith)
            requires
                raw.n == p.n - (g.x0 as int) * p.d,
                raw.d == (g.x1 as int - g.x0 as int) * p.d,
                p.n < (g.x1 as int) * p.d,
        ;
    }
}

/// `grade_deg` is a well-formed degree in `[0, 1]`.
pub proof fn lemma_grade_deg_wf(g: Grade, p: Q)
    requires
        g.wf(),
        q_wf(p),
    ensures
        q_wf(grade_deg(g, p)),
        q_in_unit(grade_deg(g, p)),
{
    lemma_grade_raw_wf(g, p);
}

/// `inverse_grade_raw` is a well-formed degree in `[0, 1]`.
pub proof fn lemma_inverse_grade_raw_wf(g: InverseGrade, p: Q)
    requires
        g.wf(),
        q_wf(p),
    ensures
        q_wf(inverse_grade_raw(g, p)),
        q_in_unit(inverse_grade_raw(g, p)),
{
    let raw = inverse_grade_raw(g, p);
    if !q_le(p, q_int(g.x0 as int)) && !q_le(q_int(g.x1 as int), p) {
        lemma_mul_strictly_positive(g.x1 as int - g.x0 as int, p.d);
        assert(raw.n <= raw.d) by (nonlinear_arith)
            requires
                raw.n == (g.x1 as int) * p.d - p.n,
                raw.d == (g.x1 as int - g.x0 as int) * p.d,
                (g.x0 as int) * p.d < p.n,
        ;
    }
}

/// `inverse_grade_deg` is a well-formed degree in `[0, 1]`.
pub proof fn lemma_inverse_grade_deg_wf(g: InverseGrade, p: Q)
    requires
        g.wf(),
        q_wf(p),
    ensures
        q_wf(inverse_grade_deg(g, p)),
        q_in_unit(inverse_grade_deg(g, p)),
{
    lemma_inverse_grade_raw_wf(g, p);
}

/// `triangle_raw` is well-formed and nonnegative (the falling edge may top 1).
pub proof fn lemma_triangle_raw_wf(t: Triangle, p: Q)
    requires
        t.wf(),
        q_wf(p),
    ensures
        q_wf(triangle_raw(t, p)),
        triangle_raw(t, p).n >= 0,
{
    lemma_mul_strictly_positive(t.x1 as int - t.x0 as int, p.d);
}

/// `triangle_deg` is a well-formed degree in `[0, 1]`.
pub proof fn lemma_triangle_deg_wf(t: Triangle, p: Q)
    requires
        t.wf(),
        q_wf(p),
    ensures
        q_wf(triangle_deg(t, p)),
        q_in_unit(triangle_deg(t, p)),
{
    lemma_triangle_raw_wf(t, p);
    let raw = triangle_raw(t, p);
    if q_le(raw, t.clip@) {
        lemma_q_le_trans(raw, t.clip@, q_one());
    }
}

impl Grade {
    /// Membership of `position`: 0 up to `x0`, linear to 1 at `x1`, then
    /// flat, capped at the clip.
    pub fn fuzzify(&self, position: i64) -> (r: Rat)
        requires
            self.wf(),
            -COORD_LIMIT <= position <= COORD_LIMIT,
        ensures
            r.wf(),
            q_in_unit(r@),
            r@ == grade_deg(*self, q_int(position as int)),
    {
        let raw: Rat = if position >= self.x1 {
            Rat::one()
        } else if position <= self.x0 {
            Rat::zero()
        } else {
            Rat::new(position - self.x0, self.x1 - self.x0)
        };
        proof {
            lemma_grade_raw_wf(*self, q_int(position as int));
        }
        raw.min(&self.clip)
    }
}

impl InverseGrade {
    /// Membership of `position`: 1 up to `x0`, linear down to 0 at `x1`, then
    /// flat, capped at the clip.
    pub fn fuzzify(&self, position: i64) -> (r: Rat)
        requires
            self.wf(),
            -COORD_LIMIT <= position <= COORD_LIMIT,
        ensures
            r.wf(),
            q_in_unit(r@),
            r@ == inverse_grade_deg(*self, q_int(position as int)),
    {
        let raw: Rat = if position <= self.x0 {
            Rat::one()
        } else if position >= self.x1 {
            Rat::zero()
        } else {
            Rat::new(self.x1 - position, self.x1 - self.x0)
        };
        proof {
            lemma_inverse_grade_raw_wf(*self, q_int(position as int));
        }
        raw.min(&self.clip)
    }
}

impl Triangle {
    /// Membership of `position`: 0 outside `[x0, x2]`, linear up to the peak
    /// at `x1` and back down, both edges over the rising span, capped at the
    /// clip.
    pub fn fuzzify(&self, position: i64) -> (r: Rat)
        requires
            self.wf(),
            -COORD_LIMIT <= position <= COORD_LIMIT,
        ensures
            r.wf(),
            q_in_unit(r@),
            r@ == triangle_deg(*self, q_int(position as int)),
    {
        let raw: Rat = if position >= self.x0 && position <= self.x1 {
            Rat::new(position - self.x0, self.x1 - self.x0)
        } else if position >= self.x1 && position <= self.x2 {
            Rat::new(self.x2 - position, self.x1 - self.x0)
        } else {
            Rat::zero()
        };
        let r = raw.min(&self.clip);
        proof {
            if q_le(raw@, self.clip@) {
                lemma_q_le_trans(raw@, self.clip@, q_one());
            }
        }
        r
    }
}

/// The uncapped grade membership never decreases as the position grows.
proof fn lemma_grade_raw_monotone(g: Grade, p1: Q, p2: Q)
    requires
        g.wf(),
        q_wf(p1),
        q_wf(p2),
        q_le(p1, p2),
    ensures
        q_le(grade_raw(g, p1), grade_raw(g, p2)),
{
    let x0 = q_int(g.x0 as int);
    let x1 = q_int(g.x1 as int);
    lemma_grade_raw_wf(g, p1);
    lemma_grade_raw_wf(g, p2);
    if q_le(x1, p2) {
        // the upper plateau: anything in [0, 1] is below 1
        assert(grade_raw(g, p2) == q_one());
        assert(q_le(grade_raw(g, p1), q_one()));
    } else if q_le(p2, x0) {
        lemma_q_le_trans(p1, p2, x0);
        // both positions are below x1, so both sit on the lower plateau
        lemma_q_le_lt_trans(p1, x0, x1);
        lemma_q_le_lt_trans(p2, x0, x1);
        assert(grade_raw(g, p1) == q_zero());
        assert(grade_raw(g, p2) == q_zero());
        assert(q_le(q_zero(), q_zero()));
    } else {
        if q_le(x1, p1) {
            lemma_q_le_trans(x1, p1, p2);
            assert(false);
        }
        if q_le(p1, x0) {
            assert(grade_raw(g, p1) == q_zero());
            lemma_q_cmp_consts(grade_raw(g, p2));
            assert(q_le(q_zero(), grade_raw(g, p2)));
        } else {
            assert((p1.n - (g.x0 as int) * p1.d) * ((g.x1 as int - g.x0 as int) * p2.d) <= (p2.n - (
            g.x0 as int) * p2.d) * ((g.x1 as int - g.x0 as int) * p1.d)) by (nonlinear_arith)
                requires
                    p1.n * p2.d <= p2.n * p1.d,
                    p1.d > 0,
                    p2.d > 0,
                    (g.x0 as int) < (g.x1 as int),
            ;
            assert(q_le(grade_raw(g, p1), grade_raw(g, p2)));
        }
    }
}

/// The degree a `Grade` assigns never decreases as the position grows:
/// on the ramp the membership is monotonically non-decreasing, and past
/// `x1` it stays at the clip ceiling (see `lemma_grade_saturates`).
pub proof fn lemma_grade_monotone(g: Grade, p1: Q, p2: Q)
    requires
        g.wf(),
        q_wf(p1),
        q_wf(p2),
        q_le(p1, p2),
    ensures
        q_le(grade_deg(g, p1), grade_deg(g, p2)),
{
    lemma_grade_raw_monotone(g, p1, p2);
    lemma_grade_raw_wf(g, p1);
    lemma_grade_raw_wf(g, p2);
    lemma_q_min_monotone(grade_raw(g, p1), grade_raw(g, p2), g.clip@);
}

/// From `x1` onwards a `Grade`'s degree equals its clip ceiling.
pub proof fn lemma_grade_saturates(g: Grade, p: Q)
    requires
        g.wf(),
        q_wf(p),
        q_le(q_int(g.x1 as int), p),
    ensures
        q_eq(grade_deg(g, p), g.clip@),
{
}

/// Boundary values of an `InverseGrade`: the degree at `x0` is the clip
/// ceiling, and the degree at `x1` is zero.
pub proof fn lemma_inverse_grade_boundaries(g: InverseGrade)
    requires
        g.wf(),
    ensures
        q_eq(inverse_grade_deg(g, q_int(g.x0 as int)), g.clip@),
        q_eq(inverse_grade_deg(g, q_int(g.x1 as int)), q_zero()),
{
}

/// A `Triangle`'s degree at the middle breakpoint is the clip ceiling.
pub proof fn lemma_triangle_peak(t: Triangle)
    requires
        t.wf(),
    ensures
        q_eq(triangle_deg(t, q_int(t.x1 as int)), t.clip@),
{
    let p = q_int(t.x1 as int);
    let raw = triangle_raw(t, p);
    let s = t.x1 as int - t.x0 as int;
    assert(raw.n == s && raw.d == s);
    if q_le(raw, t.clip@) {
        assert(t.clip@.d <= t.clip@.n) by (nonlinear_arith)
            requires
                s * t.clip@.d <= t.clip@.n * s,
                s >= 1,
        ;
        assert(raw.n * t.clip@.d == t.clip@.n * raw.d) by (nonlinear_arith)
            requires
                raw.n == s,
                raw.d == s,
                t.clip@.d == t.clip@.n,
        ;
    }
}

/// The degree a `Grade` assigns is strictly positive exactly when the
/// position lies strictly above `x0` and the clip ceiling is nonzero.
pub proof fn lemma_grade_positivity(g: Grade, p: Q)
    requires
        g.wf(),
        q_wf(p),
    ensures
        q_lt(q_zero(), grade_deg(g, p)) == (q_lt(q_int(g.x0 as int), p) && g.clip.num > 0),
{
    let x0 = q_int(g.x0 as int);
    let x1 = q_int(g.x1 as int);
    let raw = grade_raw(g, p);
    lemma_grade_raw_wf(g, p);
    if q_le(x1, p) {
        lemma_q_lt_le_trans(x0, x1, p);
    }
    if q_lt(q_zero(), raw) && q_le(raw, g.clip@) {
        lemma_q_lt_le_trans(q_zero(), raw, g.clip@);
    }
    if g.clip.num > 0 && !q_le(raw, g.clip@) {
        lemma_q_le_lt_trans(q_zero(), g.clip@, raw);
    }
}

/// The degree an `InverseGrade` assigns is strictly positive exactly when
/// the position lies strictly below `x1` and the clip ceiling is nonzero.
pub proof fn lemma_inverse_grade_positivity(g: InverseGrade, p: Q)
    requires
        g.wf(),
        q_wf(p),
    ensures
        q_lt(q_zero(), inverse_grade_deg(g, p)) == (q_lt(p, q_int(g.x1 as int)) && g.clip.num > 0),
{
    let x0 = q_int(g.x0 as int);
    let x1 = q_int(g.x1 as int);
    let raw = inverse_grade_raw(g, p);
    lemma_inverse_grade_raw_wf(g, p);
    if q_le(p, x0) {
        lemma_q_le_lt_trans(p, x0, x1);
    }
    if q_lt(q_zero(), raw) && q_le(raw, g.clip@) {
        lemma_q_lt_le_trans(q_zero(), raw, g.clip@);
    }
    if g.clip.num > 0 && !q_le(raw, g.clip@) {
        lemma_q_le_lt_trans(q_zero(), g.clip@, raw);
    }
}

/// The degree a `Triangle` assigns is strictly positive exactly when the
/// position lies strictly inside `(x0, x2)` and the clip ceiling is nonzero.
pub proof fn lemma_triangle_positivity(t: Triangle, p: Q)
    requires
        t.wf(),
        q_wf(p),
    ensures
        q_lt(q_zero(), triangle_deg(t, p)) == (q_lt(q_int(t.x0 as int), p) && q_lt(
            p,
            q_int(t.x2 as int),
        ) && t.clip.num > 0),
{
    let x0 = q_int(t.x0 as int);
    let x1 = q_int(t.x1 as int);
    let x2 = q_int(t.x2 as int);
    let raw = triangle_raw(t, p);
    lemma_triangle_raw_wf(t, p);
    if q_le(x0, p) && q_le(p, x1) {
        lemma_q_le_lt_trans(p, x1, x2);
    }
    if q_le(x1, p) && q_le(p, x2) {
        lemma_q_lt_le_trans(x0, x1, p);
    }
    if q_lt(q_zero(), raw) && q_le(raw, t.clip@) {
        lemma_q_lt_le_trans(q_zero(), raw, t.clip@);
    }
    if t.clip.num > 0 && !q_le(raw, t.clip@) {
        lemma_q_le_lt_trans(q_zero(), t.clip@, raw);
    }
}

} // verus!
