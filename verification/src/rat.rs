//! Exact rational arithmetic for membership degrees and defuzzified values.
//!
//! The mathematical model is the ghost type [`Q`], a pair of unbounded
//! integers read as the fraction `n / d` with `d > 0`.  Two ghost rationals
//! are compared by cross-multiplication ([`q_eq`], [`q_le`]), so a value has
//! many representations.  The executable type [`Rat`] carries an `i64`
//! numerator and denominator; its operations are proved against the ghost
//! model.

use vstd::arithmetic::div_mod::{
    lemma_fundamental_div_mod, lemma_mod_division_less_than_divisor, lemma_mod_multiples_basic,
    lemma_mod_self_0, lemma_small_mod,
};
use vstd::arithmetic::mul::{lemma_mul_is_distributive_add_other_way, lemma_mul_strictly_positive};
use vstd::prelude::*;

verus! {

/// A ghost rational number: the value `n / d`, meaningful when `d > 0`.
pub struct Q {
    pub n: int,
    pub d: int,
}

/// The denominator is positive, so the pair denotes a rational value.
pub open spec fn q_wf(a: Q) -> bool {
    a.d > 0
}

/// The rational with value `n`.
pub open spec fn q_int(n: int) -> Q {
    Q { n, d: 1 }
}

pub open spec fn q_zero() -> Q {
    q_int(0)
}

pub open spec fn q_one() -> Q {
    q_int(1)
}

/// Value equality by cross-multiplication (sound when both sides are `q_wf`).
pub open spec fn q_eq(a: Q, b: Q) -> bool {
    a.n * b.d == b.n * a.d
}

pub open spec fn q_le(a: Q, b: Q) -> bool {
    a.n * b.d <= b.n * a.d
}

pub open spec fn q_lt(a: Q, b: Q) -> bool {
    a.n * b.d < b.n * a.d
}

pub open spec fn q_add(a: Q, b: Q) -> Q {
    Q { n: a.n * b.d + b.n * a.d, d: a.d * b.d }
}

pub open spec fn q_mul(a: Q, b: Q) -> Q {
    Q { n: a.n * b.n, d: a.d * b.d }
}

/// The quotient `a / b`, meaningful when `b` is strictly positive.
pub open spec fn q_div(a: Q, b: Q) -> Q {
    Q { n: a.n * b.d, d: a.d * b.n }
}

/// The smaller value; ties pick the left representation.
pub open spec fn q_min(a: Q, b: Q) -> Q {
    if q_le(a, b) {
        a
    } else {
        b
    }
}

/// The larger value; ties pick the right representation.
pub open spec fn q_max(a: Q, b: Q) -> Q {
    if q_le(a, b) {
        b
    } else {
        a
    }
}

/// The complement `1 - a`, on the same denominator.
pub open spec fn q_compl(a: Q) -> Q {
    Q { n: a.d - a.n, d: a.d }
}

/// The value lies in the unit interval `[0, 1]`.
pub open spec fn q_in_unit(a: Q) -> bool {
    0 <= a.n <= a.d
}

/// Magnitude bound on the fields of an executable rational: comparisons
/// cross-multiply two such fields, and the product of two values bounded by
/// `RAT_LIMIT` (2^62) still fits an `i128`.
pub const RAT_LIMIT: i64 = 0x4000_0000_0000_0000;

/// The value has some representation whose fields stay within `RAT_LIMIT`:
/// exactly the values the engine's checked operations can produce, since
/// they reduce by the greatest common divisor and the reduced representation
/// is never larger than any equal-valued one.
pub open spec fn q_fits(v: Q) -> bool {
    exists|w: Q|
        0 < w.d <= RAT_LIMIT as int && -RAT_LIMIT as int <= w.n <= RAT_LIMIT as int && q_eq(w, v)
}

/// An executable rational number in the range the engine computes with.
#[derive(Clone, Copy, Debug, PartialEq, Eq, Structural)]
pub struct Rat {
    pub num: i64,
    pub den: i64,
}

/// The canonical representation of zero, which the checked operations
/// return whenever their exact result is zero.
pub open spec fn zero_rat() -> Rat {
    Rat { num: 0, den: 1 }
}

impl View for Rat {
    type V = Q;

    open spec fn view(&self) -> Q {
        Q { n: self.num as int, d: self.den as int }
    }
}

/// `|a| <= c` and `|b| <= d` bound the product `a * b` by `c * d`.
pub proof fn lemma_mul_bound(a: int, b: int, c: int, d: int)
    by (nonlinear_arith)
    requires
        -c <= a <= c,
        -d <= b <= d,
        0 <= c,
        0 <= d,
    ensures
        -(c * d) <= a * b <= c * d,
{
}

/// Value equality of well-formed rationals is transitive.
pub proof fn lemma_q_eq_trans(a: Q, b: Q, c: Q)
    by (nonlinear_arith)
    requires
        q_wf(a),
        q_wf(b),
        q_wf(c),
        q_eq(a, b),
        q_eq(b, c),
    ensures
        q_eq(a, c),
{
}

/// A well-formed rational equal in value to zero has a zero numerator.
pub proof fn lemma_q_eq_zero(a: Q, b: Q)
    by (nonlinear_arith)
    requires
        q_wf(a),
        q_wf(b),
        q_eq(a, b),
    ensures
        (a.n == 0) == (b.n == 0),
        (a.n > 0) == (b.n > 0),
{
}

/// Replacing both operands of `q_add` by value-equal rationals keeps the value.
pub proof fn lemma_q_add_congruence(a: Q, a2: Q, b: Q, b2: Q)
    requires
        q_wf(a),
        q_wf(a2),
        q_wf(b),
        q_wf(b2),
        q_eq(a, a2),
        q_eq(b, b2),
    ensures
        q_eq(q_add(a, b), q_add(a2, b2)),
{
    lemma_mul_is_distributive_add_other_way(a2.d * b2.d, a.n * b.d, b.n * a.d);
    lemma_mul_is_distributive_add_other_way(a.d * b.d, a2.n * b2.d, b2.n * a2.d);
    lemma_mul_reorder(a.n, b.d, a2.d, b2.d);
    assert((a.n * b.d) * (a2.d * b2.d) == (a.n * a2.d) * (b.d * b2.d));
    assert((a.n * a2.d) * (b.d * b2.d) == (a2.n * a.d) * (b.d * b2.d));
    lemma_mul_reorder(a2.n, a.d, b.d, b2.d);
    assert((a2.n * a.d) * (b.d * b2.d) == (a2.n * b2.d) * (a.d * b.d));
    lemma_mul_reorder(b.n, a.d, a2.d, b2.d);
    assert((b.n * a.d) * (a2.d * b2.d) == (b.n * b2.d) * (a.d * a2.d));
    assert((b.n * b2.d) * (a.d * a2.d) == (b2.n * b.d) * (a.d * a2.d));
    lemma_mul_reorder(b2.n, b.d, a.d, a2.d);
    assert((b2.n * b.d) * (a.d * a2.d) == (b2.n * a2.d) * (a.d * b.d));
}

/// Addition of well-formed rationals preserves value ordering on both sides.
pub proof fn lemma_q_add_le_mono(a1: Q, a2: Q, b1: Q, b2: Q)
    requires
        q_wf(a1),
        q_wf(a2),
        q_wf(b1),
        q_wf(b2),
        q_le(a1, b1),
        q_le(a2, b2),
    ensures
        q_le(q_add(a1, a2), q_add(b1, b2)),
{
    lemma_mul_is_distributive_add_other_way(b1.d * b2.d, a1.n * a2.d, a2.n * a1.d);
    lemma_mul_is_distributive_add_other_way(a1.d * a2.d, b1.n * b2.d, b2.n * b1.d);
    lemma_mul_reorder(a1.n, a2.d, b1.d, b2.d);
    assert((a1.n * a2.d) * (b1.d * b2.d) == (a1.n * b1.d) * (a2.d * b2.d));
    lemma_mul_reorder(a2.n, a1.d, b1.d, b2.d);
    assert((a2.n * a1.d) * (b1.d * b2.d) == (a2.n * b2.d) * (a1.d * b1.d));
    lemma_mul_reorder(b1.n, a1.d, a2.d, b2.d);
    assert((b1.n * b2.d) * (a1.d * a2.d) == (b1.n * a1.d) * (a2.d * b2.d));
    lemma_mul_reorder(b2.n, b1.d, a1.d, a2.d);
    assert((b2.n * b1.d) * (a1.d * a2.d) == (b2.n * a2.d) * (a1.d * b1.d));
    lemma_mul_strictly_positive(a2.d, b2.d);
    lemma_mul_strictly_positive(a1.d, b1.d);
    vstd::arithmetic::mul::lemma_mul_inequality(a1.n * b1.d, b1.n * a1.d, a2.d * b2.d);
    vstd::arithmetic::mul::lemma_mul_inequality(a2.n * b2.d, b2.n * a2.d, a1.d * b1.d);
}

/// The four ways of pairing a product of four factors that the rational
/// congruence proofs use.
proof fn lemma_mul_reorder(x: int, y: int, z: int, w: int)
    by (nonlinear_arith)
    ensures
        (x * y) * (z * w) == (x * z) * (y * w),
        (x * y) * (z * w) == (x * w) * (y * z),
        (x * y) * (z * w) == (x * w) * (z * y),
{
}

/// The regroupings of a product of three factors that the associativity
/// proof uses.
proof fn lemma_mul_reorder3(x: int, y: int, z: int)
    by (nonlinear_arith)
    ensures
        (x * y) * z == x * (y * z),
        (x * y) * z == (x * z) * y,
        x * (y * z) == (x * z) * y,
{
}

/// Addition of well-formed rationals is associative up to value equality.
pub proof fn lemma_q_add_assoc(a: Q, b: Q, c: Q)
    requires
        q_wf(a),
        q_wf(b),
        q_wf(c),
    ensures
        q_eq(q_add(q_add(a, b), c), q_add(a, q_add(b, c))),
{
    let l = q_add(q_add(a, b), c);
    let r = q_add(a, q_add(b, c));
    lemma_mul_is_distributive_add_other_way(c.d, a.n * b.d, b.n * a.d);
    lemma_mul_is_distributive_add_other_way(a.d, b.n * c.d, c.n * b.d);
    lemma_mul_reorder3(a.n, b.d, c.d);
    lemma_mul_reorder3(b.n, a.d, c.d);
    lemma_mul_reorder3(c.n, a.d, b.d);
    lemma_mul_reorder3(a.d, b.d, c.d);
    assert(l.n == r.n);
    assert(l.d == r.d);
}

/// Adding the zero rational on either side keeps the representation.
pub proof fn lemma_q_add_zero(x: Q)
    ensures
        q_add(q_zero(), x) == x,
        q_add(x, q_zero()) == x,
{
    assert(0 * x.d + x.n * 1 == x.n) by (nonlinear_arith);
    assert(x.n * 1 + 0 * x.d == x.n) by (nonlinear_arith);
    assert(1 * x.d == x.d) by (nonlinear_arith);
    assert(x.d * 1 == x.d) by (nonlinear_arith);
}

/// Replacing both operands of `q_div` by value-equal rationals keeps the
/// value, as long as the divisors are strictly positive.
pub proof fn lemma_q_div_congruence(a: Q, a2: Q, b: Q, b2: Q)
    by (nonlinear_arith)
    requires
        q_wf(a),
        q_wf(a2),
        q_wf(b),
        q_wf(b2),
        b.n > 0,
        b2.n > 0,
        q_eq(a, a2),
        q_eq(b, b2),
    ensures
        q_eq(q_div(a, b), q_div(a2, b2)),
{
}

/// The quotient of well-formed rationals by a positive value is well-formed.
pub proof fn lemma_q_div_wf(a: Q, b: Q)
    requires
        q_wf(a),
        q_wf(b),
        b.n > 0,
    ensures
        q_wf(q_div(a, b)),
{
    lemma_mul_strictly_positive(a.d, b.n);
}

/// The sum of well-formed rationals is well-formed.
pub proof fn lemma_q_add_wf(a: Q, b: Q)
    requires
        q_wf(a),
        q_wf(b),
    ensures
        q_wf(q_add(a, b)),
{
    lemma_mul_strictly_positive(a.d, b.d);
}

/// The product of well-formed rationals is well-formed.
pub proof fn lemma_q_mul_wf(a: Q, b: Q)
    requires
        q_wf(a),
        q_wf(b),
    ensures
        q_wf(q_mul(a, b)),
{
    lemma_mul_strictly_positive(a.d, b.d);
}

/// Adding nonnegative rationals keeps the value nonnegative, and the sum is
/// zero exactly when both operands are.
pub proof fn lemma_q_add_sign(a: Q, b: Q)
    by (nonlinear_arith)
    requires
        q_wf(a),
        q_wf(b),
        a.n >= 0,
        b.n >= 0,
    ensures
        q_add(a, b).n >= 0,
        (q_add(a, b).n == 0) == (a.n == 0 && b.n == 0),
{
}

/// Value comparison of well-formed rationals is transitive.
pub proof fn lemma_q_le_trans(a: Q, b: Q, c: Q)
    by (nonlinear_arith)
    requires
        q_wf(a),
        q_wf(b),
        q_wf(c),
        q_le(a, b),
        q_le(b, c),
    ensures
        q_le(a, c),
{
}

/// A strict comparison on the right keeps the chained comparison strict.
pub proof fn lemma_q_le_lt_trans(a: Q, b: Q, c: Q)
    by (nonlinear_arith)
    requires
        q_wf(a),
        q_wf(b),
        q_wf(c),
        q_le(a, b),
        q_lt(b, c),
    ensures
        q_lt(a, c),
{
}

/// A strict comparison on the left keeps the chained comparison strict.
pub proof fn lemma_q_lt_le_trans(a: Q, b: Q, c: Q)
    by (nonlinear_arith)
    requires
        q_wf(a),
        q_wf(b),
        q_wf(c),
        q_lt(a, b),
        q_le(b, c),
    ensures
        q_lt(a, c),
{
}

/// Comparisons against the constants zero and one read directly off the
/// numerator and denominator.
pub proof fn lemma_q_cmp_consts(v: Q)
    by (nonlinear_arith)
    ensures
        q_lt(q_zero(), v) == (v.n > 0),
        q_le(q_zero(), v) == (v.n >= 0),
        q_le(v, q_zero()) == (v.n <= 0),
        q_eq(v, q_zero()) == (v.n == 0),
        q_eq(q_zero(), v) == (v.n == 0),
        q_le(v, q_one()) == (v.n <= v.d),
        q_le(q_one(), v) == (v.d <= v.n),
{
}

/// Taking the minimum with a fixed value preserves value ordering.
pub proof fn lemma_q_min_monotone(a: Q, b: Q, c: Q)
    requires
        q_wf(a),
        q_wf(b),
        q_wf(c),
        q_le(a, b),
    ensures
        q_le(q_min(a, c), q_min(b, c)),
{
    if !q_le(a, c) && q_le(b, c) {
        lemma_q_le_trans(a, b, c);
    }
}

/// Whether a value fits depends on the value alone, not its representation.
pub proof fn lemma_q_fits_congruence(a: Q, b: Q)
    requires
        q_wf(a),
        q_wf(b),
        q_eq(a, b),
        q_fits(a),
    ensures
        q_fits(b),
{
    let w = choose|w: Q|
        0 < w.d <= RAT_LIMIT as int && -RAT_LIMIT as int <= w.n <= RAT_LIMIT as int && q_eq(w, a);
    lemma_q_eq_trans(w, a, b);
    assert(0 < w.d <= RAT_LIMIT as int && -RAT_LIMIT as int <= w.n <= RAT_LIMIT as int && q_eq(
        w,
        b,
    ));
}

/// One step of a running sum: a new accumulator equal to `acc + term`,
/// where `acc` carries `base + prev` and `term` carries `sterm`, carries
/// `base + (prev + sterm)`.
pub proof fn lemma_sum_step(new: Q, acc: Q, term: Q, base: Q, prev: Q, sterm: Q)
    requires
        q_wf(new),
        q_wf(acc),
        q_wf(term),
        q_wf(base),
        q_wf(prev),
        q_wf(sterm),
        q_eq(new, q_add(acc, term)),
        q_eq(acc, q_add(base, prev)),
        q_eq(term, sterm),
    ensures
        q_eq(new, q_add(base, q_add(prev, sterm))),
{
    lemma_q_add_wf(base, prev);
    lemma_q_add_wf(prev, sterm);
    lemma_q_add_wf(q_add(base, prev), sterm);
    lemma_q_add_wf(base, q_add(prev, sterm));
    lemma_q_add_wf(acc, term);
    lemma_q_add_congruence(acc, q_add(base, prev), term, sterm);
    lemma_q_add_assoc(base, prev, sterm);
    lemma_q_eq_trans(new, q_add(acc, term), q_add(q_add(base, prev), sterm));
    lemma_q_eq_trans(new, q_add(q_add(base, prev), sterm), q_add(base, q_add(prev, sterm)));
}

/// The value of one accumulation step: adding `term` to an accumulator that
/// carries `base + prev` yields the value `base + (prev + sterm)`.
pub proof fn lemma_add_chain(acc: Q, term: Q, base: Q, prev: Q, sterm: Q)
    requires
        q_wf(acc),
        q_wf(term),
        q_wf(base),
        q_wf(prev),
        q_wf(sterm),
        q_eq(acc, q_add(base, prev)),
        q_eq(term, sterm),
    ensures
        q_eq(q_add(acc, term), q_add(base, q_add(prev, sterm))),
{
    lemma_q_add_wf(base, prev);
    lemma_q_add_wf(prev, sterm);
    lemma_q_add_wf(q_add(base, prev), sterm);
    lemma_q_add_wf(base, q_add(prev, sterm));
    lemma_q_add_wf(acc, term);
    lemma_q_add_congruence(acc, q_add(base, prev), term, sterm);
    lemma_q_add_assoc(base, prev, sterm);
    lemma_q_eq_trans(q_add(acc, term), q_add(q_add(base, prev), sterm), q_add(base, q_add(prev, sterm)));
}

/// Replacing the second operand of a sum by a value-equal rational keeps
/// the accumulated value.
pub proof fn lemma_add_second(new: Q, a: Q, b: Q, b2: Q)
    requires
        q_wf(new),
        q_wf(a),
        q_wf(b),
        q_wf(b2),
        q_eq(new, q_add(a, b)),
        q_eq(b, b2),
    ensures
        q_eq(new, q_add(a, b2)),
{
    lemma_q_add_wf(a, b);
    lemma_q_add_wf(a, b2);
    lemma_q_add_congruence(a, a, b, b2);
    lemma_q_eq_trans(new, q_add(a, b), q_add(a, b2));
}

/// A new accumulator equal to `acc + seg`, where `acc` carries `base`,
/// carries `base + seg`.
pub proof fn lemma_acc_extend(new: Q, acc: Q, seg: Q, base: Q)
    requires
        q_wf(new),
        q_wf(acc),
        q_wf(seg),
        q_wf(base),
        q_eq(new, q_add(acc, seg)),
        q_eq(acc, base),
    ensures
        q_eq(new, q_add(base, seg)),
{
    lemma_q_add_wf(acc, seg);
    lemma_q_add_wf(base, seg);
    lemma_q_add_congruence(acc, base, seg, seg);
    lemma_q_eq_trans(new, q_add(acc, seg), q_add(base, seg));
}

/// The greatest common divisor of `a` (positive) and `b`, by Euclid's
/// algorithm: the result divides both, and every common divisor divides it.
fn gcd(a: u128, b: u128) -> (g: u128)
    requires
        0 < a,
    ensures
        1 <= g,
        a as int % g as int == 0,
        b as int % g as int == 0,
        forall|m: int|
            1 <= m && #[trigger] (a as int % m) == 0 && b as int % m == 0 ==> g as int % m == 0,
{
    let mut x: u128 = a;
    let mut y: u128 = b;
    while y != 0
        invariant
            0 < x,
            forall|m: int|
                1 <= m && #[trigger] (x as int % m) == 0 && y as int % m == 0 ==> a as int % m
                    == 0 && b as int % m == 0,
            forall|m: int|
                1 <= m && #[trigger] (a as int % m) == 0 && b as int % m == 0 ==> x as int % m
                    == 0 && y as int % m == 0,
        decreases y,
    {
        let r: u128 = x % y;
        proof {
            lemma_mod_division_less_than_divisor(x as int, y as int);
            assert forall|m: int|
                1 <= m && #[trigger] (y as int % m) == 0 && r as int % m == 0 implies a as int % m
                == 0 && b as int % m == 0 by {
                lemma_divisor_of_pair_step(x as int, y as int, m);
            }
            assert forall|m: int|
                1 <= m && #[trigger] (a as int % m) == 0 && b as int % m == 0 implies y as int % m
                == 0 && r as int % m == 0 by {
                lemma_common_divisor_of_mod(x as int, y as int, m);
            }
        }
        x = y;
        y = r;
    }
    proof {
        lemma_mod_self_0(x as int);
        lemma_small_mod(0, x as nat);
        assert(x as int % x as int == 0 && y as int % x as int == 0);
    }
    x
}

/// A common divisor of `x` and `y` also divides `x % y`.
proof fn lemma_common_divisor_of_mod(x: int, y: int, m: int)
    requires
        0 <= x,
        0 < y,
        1 <= m,
        x % m == 0,
        y % m == 0,
    ensures
        (x % y) % m == 0,
{
    let q = x / y;
    let r = x % y;
    lemma_fundamental_div_mod(x, y);
    lemma_fundamental_div_mod(x, m);
    lemma_fundamental_div_mod(y, m);
    assert(r == ((x / m) - (y / m) * q) * m) by (nonlinear_arith)
        requires
            x == y * q + r,
            x == m * (x / m),
            y == m * (y / m),
    ;
    lemma_mod_multiples_basic((x / m) - (y / m) * q, m);
}

/// A divisor of `y` and of `x % y` also divides `x`.
proof fn lemma_divisor_of_pair_step(x: int, y: int, m: int)
    requires
        0 <= x,
        0 < y,
        1 <= m,
        y % m == 0,
        (x % y) % m == 0,
    ensures
        x % m == 0,
{
    let q = x / y;
    let r = x % y;
    lemma_fundamental_div_mod(x, y);
    lemma_fundamental_div_mod(y, m);
    lemma_fundamental_div_mod(r, m);
    assert(x == (q * (y / m) + r / m) * m) by (nonlinear_arith)
        requires
            x == y * q + r,
            y == m * (y / m),
            r == m * (r / m),
    ;
    lemma_mod_multiples_basic(q * (y / m) + r / m, m);
}

/// Bezout coefficients by the extended Euclidean recursion: a positive
/// common divisor `r.0` of `a` and `b` with `r.0 == r.1 * a + r.2 * b`.
proof fn lemma_bezout(a: int, b: int) -> (r: (int, int, int))
    requires
        0 < a,
        0 <= b,
    ensures
        1 <= r.0,
        a % r.0 == 0,
        b % r.0 == 0,
        r.0 == r.1 * a + r.2 * b,
    decreases b,
{
    if b == 0 {
        lemma_mod_self_0(a);
        lemma_small_mod(0, a as nat);
        assert(a == 1 * a + 0 * 0) by (nonlinear_arith);
        (a, 1, 0)
    } else {
        let q = a / b;
        let rr = a % b;
        lemma_mod_division_less_than_divisor(a, b);
        let sub = lemma_bezout(b, rr);
        let g = sub.0;
        let u = sub.1;
        let v = sub.2;
        lemma_divisor_of_pair_step(a, b, g);
        lemma_fundamental_div_mod(a, b);
        assert(g == v * a + (u - v * q) * b) by (nonlinear_arith)
            requires
                g == u * b + v * rr,
                a == b * q + rr,
        ;
        (g, v, u - v * q)
    }
}

/// The gcd-reduced representation of a positive value is componentwise no
/// larger than any other representation of the same value.
proof fn lemma_min_rep(a: int, d: int, g: int, np: int, dp: int)
    requires
        1 <= a,
        1 <= d,
        1 <= g,
        a % g == 0,
        d % g == 0,
        forall|m: int| 1 <= m && #[trigger] (d % m) == 0 && a % m == 0 ==> g % m == 0,
        1 <= np,
        1 <= dp,
        np * d == a * dp,
    ensures
        a / g <= np,
        d / g <= dp,
{
    let rn = a / g;
    let rd = d / g;
    lemma_fundamental_div_mod(a, g);
    lemma_fundamental_div_mod(d, g);
    assert(rn >= 1 && rd >= 1) by (nonlinear_arith)
        requires
            a == g * rn,
            d == g * rd,
            g >= 1,
            a >= 1,
            d >= 1,
    ;
    let bz = lemma_bezout(rd, rn);
    let gb = bz.0;
    let u = bz.1;
    let v = bz.2;
    // A common divisor `gb` of the reduced pair lifts to the common divisor
    // `g * gb` of the original pair, which must then divide `g` itself.
    lemma_fundamental_div_mod(rn, gb);
    lemma_fundamental_div_mod(rd, gb);
    assert(a == (rn / gb) * (g * gb) && d == (rd / gb) * (g * gb) && g * gb >= 1) by (
    nonlinear_arith)
        requires
            a == g * rn,
            d == g * rd,
            rn == gb * (rn / gb),
            rd == gb * (rd / gb),
            g >= 1,
            gb >= 1,
    ;
    lemma_mod_multiples_basic(rn / gb, g * gb);
    lemma_mod_multiples_basic(rd / gb, g * gb);
    assert(g % (g * gb) == 0);
    lemma_fundamental_div_mod(g, g * gb);
    assert(gb == 1) by (nonlinear_arith)
        requires
            g == (g * gb) * (g / (g * gb)),
            g >= 1,
            gb >= 1,
    ;
    // So the reduced pair is coprime and 1 == u * rd + v * rn.
    assert(rn * dp == np * rd) by (nonlinear_arith)
        requires
            np * d == a * dp,
            a == g * rn,
            d == g * rd,
            g >= 1,
    ;
    assert(dp == rd * (u * dp + v * np)) by (nonlinear_arith)
        requires
            1 == u * rd + v * rn,
            rn * dp == np * rd,
    ;
    let t = u * dp + v * np;
    assert(rd <= dp && 1 <= t) by (nonlinear_arith)
        requires
            dp == rd * t,
            1 <= dp,
            1 <= rd,
    ;
    assert(np == rn * t) by (nonlinear_arith)
        requires
            rn * dp == np * rd,
            dp == rd * t,
            1 <= rd,
    ;
    assert(rn <= np) by (nonlinear_arith)
        requires
            np == rn * t,
            1 <= t,
            1 <= rn,
    ;
}

/// Reduces the fraction `n / d` by its greatest common divisor and returns it
/// as a `Rat` when the reduced fields fit within `RAT_LIMIT`.
fn reduce_fit(n: i128, d: i128) -> (r: Option<Rat>)
    requires
        0 < d,
        -0x4000_0000_0000_0000_0000_0000_0000_0000 <= n <= 0x4000_0000_0000_0000_0000_0000_0000_0000,
    ensures
        match r {
            Some(v) => v.wf() && q_eq(v@, Q { n: n as int, d: d as int }),
            None => true,
        },
        (-RAT_LIMIT as int <= n as int <= RAT_LIMIT as int && d as int <= RAT_LIMIT as int)
            ==> r is Some,
        n == 0 ==> r == Some(zero_rat()),
        q_fits(Q { n: n as int, d: d as int }) ==> r is Some,
{
    if n == 0 {
        let z = Rat { num: 0, den: 1 };
        proof {
            assert(0 as int * (d as int) == (n as int) * 1) by (nonlinear_arith)
                requires
                    n as int == 0,
            ;
        }
        return Some(z);
    }
    let neg: bool = n < 0;
    let a: u128 = if neg {
        (-n) as u128
    } else {
        n as u128
    };
    let g: u128 = gcd(d as u128, a);
    let rn: u128 = a / g;
    let rd: u128 = (d as u128) / g;
    proof {
        lemma_fundamental_div_mod(a as int, g as int);
        lemma_fundamental_div_mod(d as int, g as int);
        // a == g * rn and d == g * rd exactly, since g divides both.
        assert(rd >= 1 && rn >= 1) by (nonlinear_arith)
            requires
                a as int == g as int * rn as int,
                d as int == g as int * rd as int,
                g as int >= 1,
                a as int >= 1,
                d as int >= 1,
                rn as int >= 0,
                rd as int >= 0,
        ;
        assert(rn as int <= a as int && rd as int <= d as int) by (nonlinear_arith)
            requires
                a as int == g as int * rn as int,
                d as int == g as int * rd as int,
                g as int >= 1,
                rn as int >= 1,
                rd as int >= 1,
        ;
    }
    if rn <= RAT_LIMIT as u128 && rd <= RAT_LIMIT as u128 {
        let num: i64 = if neg {
            -(rn as i64)
        } else {
            rn as i64
        };
        let r = Rat { num, den: rd as i64 };
        proof {
            assert(r.num as int * (d as int) == (n as int) * (r.den as int)) by (nonlinear_arith)
                requires
                    a as int == g as int * rn as int,
                    d as int == g as int * rd as int,
                    r.num as int == if neg { -(rn as int) } else { rn as int },
                    n as int == if neg { -(a as int) } else { a as int },
                    r.den as int == rd as int,
            ;
        }
        Some(r)
    } else {
        proof {
            // The reduced fields left the range, so by minimality of the
            // reduced representation no equal-valued bounded pair exists.
            if q_fits(Q { n: n as int, d: d as int }) {
                let w = choose|w: Q|
                    0 < w.d <= RAT_LIMIT as int && -RAT_LIMIT as int <= w.n <= RAT_LIMIT as int
                        && q_eq(w, Q { n: n as int, d: d as int });
                let np = if neg {
                    -w.n
                } else {
                    w.n
                };
                assert(np >= 1 && np * (d as int) == (a as int) * w.d) by (nonlinear_arith)
                    requires
                        w.n * (d as int) == (n as int) * w.d,
                        d as int >= 1,
                        w.d >= 1,
                        a as int >= 1,
                        n as int == (if neg {
                            -(a as int)
                        } else {
                            a as int
                        }),
                        np == (if neg {
                            -w.n
                        } else {
                            w.n
                        }),
                ;
                lemma_min_rep(a as int, d as int, g as int, np, w.d);
                assert(false);
            }
        }
        None
    }
}

impl Rat {
    /// The representation the engine computes with: a positive denominator,
    /// both fields small enough that comparisons cross-multiply in `i128`.
    pub open spec fn wf(self) -> bool {
        0 < self.den <= RAT_LIMIT && -RAT_LIMIT <= self.num <= RAT_LIMIT
    }

    pub fn new(num: i64, den: i64) -> (r: Rat)
        requires
            0 < den <= RAT_LIMIT,
            -RAT_LIMIT <= num <= RAT_LIMIT,
        ensures
            r.wf(),
            r.num == num,
            r.den == den,
    {
        Rat { num, den }
    }

    pub fn zero() -> (r: Rat)
        ensures
            r.wf(),
            r@ == q_zero(),
            q_in_unit(r@),
            r == zero_rat(),
    {
        Rat { num: 0, den: 1 }
    }

    pub fn one() -> (r: Rat)
        ensures
            r.wf(),
            r@ == q_one(),
            q_in_unit(r@),
    {
        Rat { num: 1, den: 1 }
    }

    pub fn from_int(v: i64) -> (r: Rat)
        requires
            -RAT_LIMIT <= v <= RAT_LIMIT,
        ensures
            r.wf(),
            r@ == q_int(v as int),
    {
        Rat { num: v, den: 1 }
    }

    /// Value comparison `self <= other`, by cross-multiplication.
    pub fn le(&self, other: &Rat) -> (b: bool)
        requires
            self.wf(),
            other.wf(),
        ensures
            b == q_le(self@, other@),
    {
        proof {
            lemma_mul_bound(
                self.num as int,
                other.den as int,
                RAT_LIMIT as int,
                RAT_LIMIT as int,
            );
            lemma_mul_bound(
                other.num as int,
                self.den as int,
                RAT_LIMIT as int,
                RAT_LIMIT as int,
            );
        }
        (self.num as i128) * (other.den as i128) <= (other.num as i128) * (self.den as i128)
    }

    /// The smaller of two values (ties keep `self`), as `q_min` does.
    pub fn min(&self, other: &Rat) -> (r: Rat)
        requires
            self.wf(),
            other.wf(),
        ensures
            r.wf(),
            r@ == q_min(self@, other@),
            r == *self || r == *other,
    {
        if self.le(other) {
            *self
        } else {
            *other
        }
    }

    /// The larger of two values (ties keep `other`), as `q_max` does.
    pub fn max(&self, other: &Rat) -> (r: Rat)
        requires
            self.wf(),
            other.wf(),
        ensures
            r.wf(),
            r@ == q_max(self@, other@),
            r == *self || r == *other,
    {
        if self.le(other) {
            *other
        } else {
            *self
        }
    }

    /// The complement `1 - self` of a degree in the unit interval.
    pub fn one_minus(&self) -> (r: Rat)
        requires
            self.wf(),
            q_in_unit(self@),
        ensures
            r.wf(),
            q_in_unit(r@),
            r@ == q_compl(self@),
    {
        Rat { num: self.den - self.num, den: self.den }
    }

    /// Exact addition; `None` when the reduced result leaves `RAT_LIMIT`.
    pub fn checked_add(&self, other: &Rat) -> (r: Option<Rat>)
        requires
            self.wf(),
            other.wf(),
        ensures
            match r {
                Some(v) => v.wf() && q_eq(v@, q_add(self@, other@)),
                None => true,
            },
            (-RAT_LIMIT as int <= q_add(self@, other@).n <= RAT_LIMIT as int && q_add(
                self@,
                other@,
            ).d <= RAT_LIMIT as int) ==> r is Some,
            q_add(self@, other@).n == 0 ==> r == Some(zero_rat()),
            q_fits(q_add(self@, other@)) ==> r is Some,
    {
        proof {
            lemma_mul_bound(
                self.num as int,
                other.den as int,
                RAT_LIMIT as int,
                RAT_LIMIT as int,
            );
            lemma_mul_bound(
                other.num as int,
                self.den as int,
                RAT_LIMIT as int,
                RAT_LIMIT as int,
            );
            lemma_mul_bound(
                self.den as int,
                other.den as int,
                RAT_LIMIT as int,
                RAT_LIMIT as int,
            );
            lemma_mul_strictly_positive(self.den as int, other.den as int);
        }
        let n: i128 = (self.num as i128) * (other.den as i128) + (other.num as i128) * (self.den
            as i128);
        let d: i128 = (self.den as i128) * (other.den as i128);
        reduce_fit(n, d)
    }

    /// Exact multiplication; `None` when the reduced result leaves `RAT_LIMIT`.
    pub fn checked_mul(&self, other: &Rat) -> (r: Option<Rat>)
        requires
            self.wf(),
            other.wf(),
        ensures
            match r {
                Some(v) => v.wf() && q_eq(v@, q_mul(self@, other@)),
                None => true,
            },
            (-RAT_LIMIT as int <= q_mul(self@, other@).n <= RAT_LIMIT as int && q_mul(
                self@,
                other@,
            ).d <= RAT_LIMIT as int) ==> r is Some,
            q_mul(self@, other@).n == 0 ==> r == Some(zero_rat()),
            q_fits(q_mul(self@, other@)) ==> r is Some,
    {
        proof {
            lemma_mul_bound(
                self.num as int,
                other.num as int,
                RAT_LIMIT as int,
                RAT_LIMIT as int,
            );
            lemma_mul_bound(
                self.den as int,
                other.den as int,
                RAT_LIMIT as int,
                RAT_LIMIT as int,
            );
            lemma_mul_strictly_positive(self.den as int, other.den as int);
        }
        let n: i128 = (self.num as i128) * (other.num as i128);
        let d: i128 = (self.den as i128) * (other.den as i128);
        reduce_fit(n, d)
    }

    /// Exact division by a strictly positive value; `None` when the reduced
    /// result leaves `RAT_LIMIT`.
    pub fn checked_div(&self, other: &Rat) -> (r: Option<Rat>)
        requires
            self.wf(),
            other.wf(),
            other.num > 0,
        ensures
            match r {
                Some(v) => v.wf() && q_eq(v@, q_div(self@, other@)),
                None => true,
            },
            (-RAT_LIMIT as int <= q_div(self@, other@).n <= RAT_LIMIT as int && q_div(
                self@,
                other@,
            ).d <= RAT_LIMIT as int) ==> r is Some,
            q_fits(q_div(self@, other@)) ==> r is Some,
    {
        proof {
            lemma_mul_bound(
                self.num as int,
                other.den as int,
                RAT_LIMIT as int,
                RAT_LIMIT as int,
            );
            lemma_mul_bound(
                self.den as int,
                other.num as int,
                RAT_LIMIT as int,
                RAT_LIMIT as int,
            );
            lemma_mul_strictly_positive(self.den as int, other.num as int);
        }
        let n: i128 = (self.num as i128) * (other.den as i128);
        let d: i128 = (self.den as i128) * (other.num as i128);
        reduce_fit(n, d)
    }
}

} // verus!
