//! A fuzzy variable and the operations of the inference cycle.
//!
//! A [`FuzzySets`] partitions one numeric axis into named overlapping
//! linguistic sets: one [`InverseGrade`] at the low end, triangles in the
//! middle, one [`Grade`] at the high end.  It fuzzifies a position into a
//! [`FuzzySetResult`], aggregates rule conclusions into a fresh copy whose
//! clip ceilings record the matched degrees, and defuzzifies the aggregated
//! region into a crisp value by an exact center-of-gravity sum.

use crate::logic::{items_view, lemma_matches_of_push, matches_of, pairs_wf, FuzzySetResult};
use crate::rat::{
    lemma_acc_extend, lemma_add_chain, lemma_add_second, lemma_mul_bound, lemma_q_add_congruence,
    lemma_q_add_sign, lemma_q_add_wf, lemma_q_add_zero, lemma_q_cmp_consts,
    lemma_q_div_congruence, lemma_q_div_wf, lemma_q_add_le_mono, lemma_q_eq_trans,
    lemma_q_eq_zero, lemma_q_fits_congruence, lemma_q_mul_wf, lemma_sum_step, q_add, q_div, q_eq,
    q_fits, q_in_unit, q_int, q_le, q_lt, q_mul, q_wf, q_zero, zero_rat, Q, Rat, RAT_LIMIT,
};
use crate::shapes::{
    grade_deg, inverse_grade_deg, lemma_grade_deg_wf, lemma_grade_positivity,
    lemma_inverse_grade_deg_wf, lemma_inverse_grade_positivity, lemma_triangle_deg_wf,
    lemma_triangle_positivity, triangle_deg, Grade, InverseGrade, Triangle, COORD_LIMIT,
};
use vstd::arithmetic::div_mod::{
    lemma_div_nonincreasing, lemma_div_pos_is_pos, lemma_fundamental_div_mod,
};
use vstd::prelude::*;

verus! {

/// A fuzzy variable: one falling edge, the triangles in order, one rising
/// edge, all over one axis.
#[derive(Debug)]
pub struct FuzzySets {
    pub start: InverseGrade,
    pub triangles: Vec<Triangle>,
    pub end: Grade,
}

/// `label` names one of the variable's sets.
pub open spec fn contains_label(fs: FuzzySets, label: Seq<char>) -> bool {
    fs.start.name@ == label || fs.end.name@ == label || exists|i: int|
        0 <= i < fs.triangles@.len() && (#[trigger] fs.triangles@[i]).name@ == label
}

/// The number of sets the variable holds.
pub open spec fn shape_count(fs: FuzzySets) -> nat {
    fs.triangles@.len() + 2
}

/// The name of the `i`-th set, in fuzzification order.
pub open spec fn label_at(fs: FuzzySets, i: int) -> Seq<char> {
    if i == 0 {
        fs.start.name@
    } else if 1 <= i <= fs.triangles@.len() {
        fs.triangles@[i - 1].name@
    } else {
        fs.end.name@
    }
}

/// The degree the `i`-th set assigns to position `p`.
pub open spec fn deg_at(fs: FuzzySets, p: Q, i: int) -> Q {
    if i == 0 {
        inverse_grade_deg(fs.start, p)
    } else if 1 <= i <= fs.triangles@.len() {
        triangle_deg(fs.triangles@[i - 1], p)
    } else {
        grade_deg(fs.end, p)
    }
}

/// Every set's `(label, degree)` pair at position `p`, in order.
pub open spec fn all_pairs(fs: FuzzySets, p: Q) -> Seq<(Seq<char>, Q)> {
    Seq::new(shape_count(fs), |i: int| (label_at(fs, i), deg_at(fs, p, i)))
}

/// The pairs whose degree is strictly positive, keeping their order.
pub open spec fn positives(s: Seq<(Seq<char>, Q)>) -> Seq<(Seq<char>, Q)>
    decreases s.len(),
{
    if s.len() == 0 {
        Seq::empty()
    } else {
        let rest = positives(s.drop_last());
        if q_lt(q_zero(), s.last().1) {
            rest.push(s.last())
        } else {
            rest
        }
    }
}

/// How `positives` grows when one pair is appended.
pub proof fn lemma_positives_push(s: Seq<(Seq<char>, Q)>, e: (Seq<char>, Q))
    ensures
        q_lt(q_zero(), e.1) ==> positives(s.push(e)) == positives(s).push(e),
        !q_lt(q_zero(), e.1) ==> positives(s.push(e)) == positives(s),
{
    assert(s.push(e).drop_last() =~= s);
    assert(s.push(e).last() == e);
}

/// The clip that aggregation leaves on the set named `label`: the degree of
/// the last matching pair across the conclusions, or zero if none matches.
pub open spec fn agg_clip(ms: Seq<Seq<(Seq<char>, Q)>>, label: Seq<char>) -> Q
    decreases ms.len(),
{
    if ms.len() == 0 {
        q_zero()
    } else {
        let prev = agg_clip(ms.drop_last(), label);
        let m = matches_of(ms.last(), label);
        if m.len() > 0 {
            m.last()
        } else {
            prev
        }
    }
}

/// How `agg_clip` grows when one conclusion is appended.
pub proof fn lemma_agg_clip_push(ms: Seq<Seq<(Seq<char>, Q)>>, label: Seq<char>, m: Seq<(Seq<char>, Q)>)
    ensures
        matches_of(m, label).len() > 0 ==> agg_clip(ms.push(m), label) == matches_of(m, label).last(),
        matches_of(m, label).len() == 0 ==> agg_clip(ms.push(m), label) == agg_clip(ms, label),
{
    assert(ms.push(m).drop_last() =~= ms);
    assert(ms.push(m).last() == m);
}

/// The ghost reading of a conclusion list: each result as its pair sequence.
pub open spec fn conclusions_view(cs: Seq<FuzzySetResult>) -> Seq<Seq<(Seq<char>, Q)>> {
    cs.map_values(|m: FuzzySetResult| m@)
}

/// Why `cog` could not produce a crisp value.
#[derive(Clone, Copy, Debug, PartialEq, Eq, Structural)]
pub enum CogError {
    /// The step is not positive, or does not evenly divide the span of some
    /// active set, so stepping would never land exactly on the upper bound.
    StepMismatch,
    /// Every sampled membership is zero: there is no region to defuzzify.
    EmptyRegion,
    /// An exact intermediate value left the range `Rat` can hold.
    Overflow,
}

/// One membership shape, seen uniformly by the integration.
pub enum Shape {
    Falling(InverseGrade),
    Peak(Triangle),
    Rising(Grade),
}

pub open spec fn shape_wf(s: Shape) -> bool {
    match s {
        Shape::Falling(g) => g.wf(),
        Shape::Peak(t) => t.wf(),
        Shape::Rising(g) => g.wf(),
    }
}

/// The lower end of the shape's integration range.
pub open spec fn shape_lo(s: Shape) -> int {
    match s {
        Shape::Falling(g) => g.x0 as int,
        Shape::Peak(t) => t.x0 as int,
        Shape::Rising(g) => g.x0 as int,
    }
}

/// The upper end of the shape's integration range.
pub open spec fn shape_hi(s: Shape) -> int {
    match s {
        Shape::Falling(g) => g.x1 as int,
        Shape::Peak(t) => t.x2 as int,
        Shape::Rising(g) => g.x1 as int,
    }
}

/// A shape takes part in the integration when its clip is nonzero.
pub open spec fn shape_active(s: Shape) -> bool {
    match s {
        Shape::Falling(g) => g.clip.num != 0,
        Shape::Peak(t) => t.clip.num != 0,
        Shape::Rising(g) => g.clip.num != 0,
    }
}

/// The degree the shape assigns to position `p`.
pub open spec fn shape_deg(s: Shape, p: Q) -> Q {
    match s {
        Shape::Falling(g) => inverse_grade_deg(g, p),
        Shape::Peak(t) => triangle_deg(t, p),
        Shape::Rising(g) => grade_deg(g, p),
    }
}

/// The shape of the `i`-th set, in integration order.
pub open spec fn shape_at(fs: FuzzySets, i: int) -> Shape {
    if i == 0 {
        Shape::Falling(fs.start)
    } else if 1 <= i <= fs.triangles@.len() {
        Shape::Peak(fs.triangles@[i - 1])
    } else {
        Shape::Rising(fs.end)
    }
}

/// Every set of the variable, in integration order.
pub open spec fn shapes_of(fs: FuzzySets) -> Seq<Shape> {
    Seq::new(shape_count(fs), |i: int| shape_at(fs, i))
}

/// The weighted partial sum over the sample points `lo, lo+step, ...,
/// lo+k*step`: each point times its degree.
pub open spec fn seg_top(s: Shape, step: int, k: nat) -> Q
    decreases k,
{
    let p = q_int(shape_lo(s) + k * step);
    let term = q_mul(p, shape_deg(s, p));
    if k == 0 {
        term
    } else {
        q_add(seg_top(s, step, (k - 1) as nat), term)
    }
}

/// The plain partial sum of the degrees over the same sample points.
pub open spec fn seg_bot(s: Shape, step: int, k: nat) -> Q
    decreases k,
{
    let p = q_int(shape_lo(s) + k * step);
    let term = shape_deg(s, p);
    if k == 0 {
        term
    } else {
        q_add(seg_bot(s, step, (k - 1) as nat), term)
    }
}

/// How many steps lead from the shape's lower to its upper bound.
pub open spec fn seg_steps(s: Shape, step: int) -> nat {
    ((shape_hi(s) - shape_lo(s)) / step) as nat
}

/// What the shape adds to the numerator: its full weighted sum when it is
/// active, nothing otherwise.
pub open spec fn contrib_top(s: Shape, step: int) -> Q {
    if shape_active(s) {
        seg_top(s, step, seg_steps(s, step))
    } else {
        q_zero()
    }
}

/// What the shape adds to the denominator.
pub open spec fn contrib_bot(s: Shape, step: int) -> Q {
    if shape_active(s) {
        seg_bot(s, step, seg_steps(s, step))
    } else {
        q_zero()
    }
}

/// The exact numerator of the center of gravity over the given shapes.
pub open spec fn cog_top(ss: Seq<Shape>, step: int) -> Q
    decreases ss.len(),
{
    if ss.len() == 0 {
        q_zero()
    } else {
        q_add(cog_top(ss.drop_last(), step), contrib_top(ss.last(), step))
    }
}

/// The exact denominator of the center of gravity over the given shapes.
pub open spec fn cog_bot(ss: Seq<Shape>, step: int) -> Q
    decreases ss.len(),
{
    if ss.len() == 0 {
        q_zero()
    } else {
        q_add(cog_bot(ss.drop_last(), step), contrib_bot(ss.last(), step))
    }
}

/// The step is positive and evenly divides every active shape's span, so
/// the bounded stepping lands exactly on each upper bound.
pub open spec fn steps_ok(ss: Seq<Shape>, step: int) -> bool {
    step > 0 && forall|i: int|
        0 <= i < ss.len() && shape_active(#[trigger] ss[i]) ==> (shape_hi(ss[i]) - shape_lo(ss[i]))
            % step == 0
}

/// The `k`-th weighted sample of the shape: the position times its degree.
pub open spec fn seg_term(s: Shape, st: int, k: nat) -> Q {
    let p = q_int(shape_lo(s) + k * st);
    q_mul(p, shape_deg(s, p))
}

/// Every weighted sample of the shape fits `Rat`'s range.
pub open spec fn seg_terms_fit(s: Shape, st: int) -> bool {
    forall|k: nat|
        #![trigger seg_term(s, st, k)]
        k <= seg_steps(s, st) ==> q_fits(seg_term(s, st, k))
}

/// Every exact value the shape's integration builds on top of the carried
/// sums fits `Rat`'s range: each weighted sample, and each partial
/// numerator and denominator sum.
pub open spec fn shape_span_fits(s: Shape, st: int, base_t: Q, base_b: Q) -> bool {
    seg_terms_fit(s, st) && forall|k: nat|
        #![trigger seg_top(s, st, k)]
        k <= seg_steps(s, st) ==> (q_fits(q_add(base_t, seg_top(s, st, k))) && q_fits(
            q_add(base_b, seg_bot(s, st, k)),
        ))
}

/// Every exact intermediate value of the whole integration, and the final
/// quotient, fits `Rat`'s range: the condition under which `cog` owes a
/// crisp result.
pub open spec fn cog_fits(fs: FuzzySets, st: int) -> bool {
    &&& forall|i: int|
        0 <= i < shapes_of(fs).len() && shape_active(#[trigger] shapes_of(fs)[i])
            ==> shape_span_fits(
            shapes_of(fs)[i],
            st,
            cog_top(shapes_of(fs).take(i), st),
            cog_bot(shapes_of(fs).take(i), st),
        )
    &&& q_fits(q_div(cog_top(shapes_of(fs), st), cog_bot(shapes_of(fs), st)))
}

/// `shape_span_fits` depends on the carried sums' values alone.
proof fn lemma_span_fits_base_change(s: Shape, st: int, bt: Q, bb: Q, bt2: Q, bb2: Q)
    requires
        shape_wf(s),
        q_wf(bt),
        q_wf(bb),
        q_wf(bt2),
        q_wf(bb2),
        q_eq(bt2, bt),
        q_eq(bb2, bb),
        shape_span_fits(s, st, bt, bb),
    ensures
        shape_span_fits(s, st, bt2, bb2),
{
    assert forall|k: nat|
        #![trigger seg_top(s, st, k)]
        k <= seg_steps(s, st) implies (q_fits(q_add(bt2, seg_top(s, st, k))) && q_fits(
        q_add(bb2, seg_bot(s, st, k)),
    )) by {
        lemma_seg_sums_wf(s, st, k);
        lemma_q_add_wf(bt, seg_top(s, st, k));
        lemma_q_add_wf(bt2, seg_top(s, st, k));
        lemma_q_add_wf(bb, seg_bot(s, st, k));
        lemma_q_add_wf(bb2, seg_bot(s, st, k));
        lemma_q_add_congruence(bt2, bt, seg_top(s, st, k), seg_top(s, st, k));
        lemma_q_add_congruence(bb2, bb, seg_bot(s, st, k), seg_bot(s, st, k));
        lemma_q_fits_congruence(q_add(bt, seg_top(s, st, k)), q_add(bt2, seg_top(s, st, k)));
        lemma_q_fits_congruence(q_add(bb, seg_bot(s, st, k)), q_add(bb2, seg_bot(s, st, k)));
    }
}

/// A shape's degree is a well-formed value in `[0, 1]`.
pub proof fn lemma_shape_deg_wf(s: Shape, p: Q)
    requires
        shape_wf(s),
        q_wf(p),
    ensures
        q_wf(shape_deg(s, p)),
        q_in_unit(shape_deg(s, p)),
{
    match s {
        Shape::Falling(g) => lemma_inverse_grade_deg_wf(g, p),
        Shape::Peak(t) => lemma_triangle_deg_wf(t, p),
        Shape::Rising(g) => lemma_grade_deg_wf(g, p),
    }
}

/// Both partial sums are well-formed, and the denominator sum nonnegative.
pub proof fn lemma_seg_sums_wf(s: Shape, step: int, k: nat)
    requires
        shape_wf(s),
    ensures
        q_wf(seg_top(s, step, k)),
        q_wf(seg_bot(s, step, k)),
        seg_bot(s, step, k).n >= 0,
    decreases k,
{
    let p = q_int(shape_lo(s) + k * step);
    lemma_shape_deg_wf(s, p);
    lemma_q_mul_wf(p, shape_deg(s, p));
    if k != 0 {
        lemma_seg_sums_wf(s, step, (k - 1) as nat);
        lemma_q_add_wf(seg_top(s, step, (k - 1) as nat), q_mul(p, shape_deg(s, p)));
        lemma_q_add_wf(seg_bot(s, step, (k - 1) as nat), shape_deg(s, p));
        lemma_q_add_sign(seg_bot(s, step, (k - 1) as nat), shape_deg(s, p));
    }
}

/// A shape's contributions are well-formed, the denominator one nonnegative.
proof fn lemma_contrib_wf(s: Shape, step: int)
    requires
        shape_wf(s),
    ensures
        q_wf(contrib_top(s, step)),
        q_wf(contrib_bot(s, step)),
        contrib_bot(s, step).n >= 0,
{
    if shape_active(s) {
        lemma_seg_sums_wf(s, step, seg_steps(s, step));
    }
}

/// Both center-of-gravity sums are well-formed, the denominator nonnegative.
pub proof fn lemma_cog_sums_wf(ss: Seq<Shape>, step: int)
    requires
        forall|i: int| 0 <= i < ss.len() ==> shape_wf(#[trigger] ss[i]),
    ensures
        q_wf(cog_top(ss, step)),
        q_wf(cog_bot(ss, step)),
        cog_bot(ss, step).n >= 0,
    decreases ss.len(),
{
    if ss.len() != 0 {
        assert forall|i: int| 0 <= i < ss.drop_last().len() implies shape_wf(
            #[trigger] ss.drop_last()[i],
        ) by {
            assert(ss.drop_last()[i] == ss[i]);
        }
        lemma_cog_sums_wf(ss.drop_last(), step);
        lemma_contrib_wf(ss.last(), step);
        lemma_q_add_wf(cog_top(ss.drop_last(), step), contrib_top(ss.last(), step));
        lemma_q_add_wf(cog_bot(ss.drop_last(), step), contrib_bot(ss.last(), step));
        lemma_q_add_sign(cog_bot(ss.drop_last(), step), contrib_bot(ss.last(), step));
    }
}

/// A zero denominator sum forces every sampled degree in it to be zero.
proof fn lemma_seg_bot_zero(s: Shape, st: int, k: nat, j: nat)
    requires
        shape_wf(s),
        j <= k,
        seg_bot(s, st, k).n == 0,
    ensures
        shape_deg(s, q_int(shape_lo(s) + j * st)).n == 0,
    decreases k,
{
    let p = q_int(shape_lo(s) + k * st);
    lemma_shape_deg_wf(s, p);
    if k != 0 {
        lemma_seg_sums_wf(s, st, (k - 1) as nat);
        lemma_q_add_sign(seg_bot(s, st, (k - 1) as nat), shape_deg(s, p));
        if j < k {
            lemma_seg_bot_zero(s, st, (k - 1) as nat, j);
        }
    }
}

/// A zero total denominator forces every shape's contribution to be zero.
proof fn lemma_cog_bot_zero(ss: Seq<Shape>, st: int, i: int)
    requires
        forall|x: int| 0 <= x < ss.len() ==> shape_wf(#[trigger] ss[x]),
        0 <= i < ss.len(),
        cog_bot(ss, st).n == 0,
    ensures
        contrib_bot(ss[i], st).n == 0,
    decreases ss.len(),
{
    assert forall|x: int| 0 <= x < ss.drop_last().len() implies shape_wf(
        #[trigger] ss.drop_last()[x],
    ) by {
        assert(ss.drop_last()[x] == ss[x]);
    }
    lemma_cog_sums_wf(ss.drop_last(), st);
    lemma_contrib_wf(ss.last(), st);
    lemma_q_add_sign(cog_bot(ss.drop_last(), st), contrib_bot(ss.last(), st));
    if i < ss.len() - 1 {
        lemma_cog_bot_zero(ss.drop_last(), st, i);
        assert(ss.drop_last()[i] == ss[i]);
    }
}

/// Every shape of a well-formed variable is well-formed.
proof fn lemma_shapes_of_wf(fs: FuzzySets)
    requires
        fs.wf(),
    ensures
        forall|i: int|
            0 <= i < shapes_of(fs).len() ==> shape_wf(#[trigger] shapes_of(fs)[i]),
{
    assert forall|i: int| 0 <= i < shapes_of(fs).len() implies shape_wf(
        #[trigger] shapes_of(fs)[i],
    ) by {
        assert(shapes_of(fs)[i] == shape_at(fs, i));
    }
}

/// The sums over a prefix of a variable's shapes are well-formed.
proof fn lemma_cog_take_wf(fs: FuzzySets, k: int, step: int)
    requires
        fs.wf(),
        0 <= k <= shapes_of(fs).len(),
    ensures
        q_wf(cog_top(shapes_of(fs).take(k), step)),
        q_wf(cog_bot(shapes_of(fs).take(k), step)),
        cog_bot(shapes_of(fs).take(k), step).n >= 0,
{
    lemma_shapes_of_wf(fs);
    let ss = shapes_of(fs);
    assert forall|j: int| 0 <= j < ss.take(k).len() implies shape_wf(
        #[trigger] ss.take(k)[j],
    ) by {
        assert(ss.take(k)[j] == ss[j]);
    }
    lemma_cog_sums_wf(ss.take(k), step);
}

/// Extending the processed prefix by one shape: the accumulators that carry
/// the prefix sums, extended by the shape's segment sums (or unchanged when
/// it is inactive), carry the sums of the longer prefix.
proof fn lemma_cog_extend(fs: FuzzySets, st: int, idx: int, oldt: Q, oldb: Q, newt: Q, newb: Q)
    requires
        fs.wf(),
        0 <= idx < shapes_of(fs).len(),
        q_wf(oldt),
        q_wf(oldb),
        q_wf(newt),
        q_wf(newb),
        q_eq(oldt, cog_top(shapes_of(fs).take(idx), st)),
        q_eq(oldb, cog_bot(shapes_of(fs).take(idx), st)),
        shape_active(shapes_of(fs)[idx]) ==> q_eq(
            newt,
            q_add(oldt, seg_top(shapes_of(fs)[idx], st, seg_steps(shapes_of(fs)[idx], st))),
        ) && q_eq(
            newb,
            q_add(oldb, seg_bot(shapes_of(fs)[idx], st, seg_steps(shapes_of(fs)[idx], st))),
        ),
        !shape_active(shapes_of(fs)[idx]) ==> newt == oldt && newb == oldb,
    ensures
        q_eq(newt, cog_top(shapes_of(fs).take(idx + 1), st)),
        q_eq(newb, cog_bot(shapes_of(fs).take(idx + 1), st)),
{
    let ss = shapes_of(fs);
    let s = ss[idx];
    lemma_shapes_of_wf(fs);
    assert(ss.take(idx + 1).drop_last() =~= ss.take(idx));
    assert(ss.take(idx + 1).last() == s);
    lemma_cog_take_wf(fs, idx, st);
    lemma_contrib_wf(s, st);
    if shape_active(s) {
        lemma_seg_sums_wf(s, st, seg_steps(s, st));
        lemma_acc_extend(
            newt,
            oldt,
            seg_top(s, st, seg_steps(s, st)),
            cog_top(ss.take(idx), st),
        );
        lemma_acc_extend(
            newb,
            oldb,
            seg_bot(s, st, seg_steps(s, st)),
            cog_bot(ss.take(idx), st),
        );
    } else {
        lemma_q_add_zero(cog_top(ss.take(idx), st));
        lemma_q_add_zero(cog_bot(ss.take(idx), st));
    }
}

/// The scaled sums that the mean-bound proofs compare, over raw fields.
proof fn lemma_scale_add_fields(c: int, x1: int, d1: int, x2: int, d2: int)
    by (nonlinear_arith)
    ensures
        (c * x1) * (1 * d2) + (c * x2) * (1 * d1) == c * (x1 * d2 + x2 * d1),
        (1 * d1) * (1 * d2) == 1 * (d1 * d2),
{
}

/// One sample's weighted term lies between the span ends times its degree.
proof fn lemma_term_bound_fields(lo: int, hi: int, pn: int, dn: int, dd: int)
    by (nonlinear_arith)
    requires
        lo <= pn <= hi,
        0 <= dn,
        1 <= dd,
    ensures
        (lo * dn) * (1 * dd) <= (pn * dn) * (1 * dd),
        (pn * dn) * (1 * dd) <= (hi * dn) * (1 * dd),
{
}

/// Within one shape's sampled span, the weighted partial sum stays between
/// the span's ends times the plain partial sum.
proof fn lemma_seg_sums_bounded(s: Shape, st: int, k: nat)
    requires
        shape_wf(s),
        st >= 1,
        k <= seg_steps(s, st),
        (shape_hi(s) - shape_lo(s)) % st == 0,
    ensures
        q_le(q_mul(q_int(shape_lo(s)), seg_bot(s, st, k)), seg_top(s, st, k)),
        q_le(seg_top(s, st, k), q_mul(q_int(shape_hi(s)), seg_bot(s, st, k))),
    decreases k,
{
    let lo = shape_lo(s);
    let hi = shape_hi(s);
    let p = q_int(lo + k * st);
    let deg = shape_deg(s, p);
    lemma_shape_deg_wf(s, p);
    let n = seg_steps(s, st) as int;
    lemma_fundamental_div_mod(hi - lo, st);
    assert(0 <= k * st && k * st <= hi - lo) by (nonlinear_arith)
        requires
            0 <= k as int <= n,
            hi - lo == st * n,
            st >= 1,
    ;
    lemma_term_bound_fields(lo, hi, p.n, deg.n, deg.d);
    assert(q_le(q_mul(q_int(lo), deg), q_mul(p, deg)));
    assert(q_le(q_mul(p, deg), q_mul(q_int(hi), deg)));
    if k != 0 {
        let prevt = seg_top(s, st, (k - 1) as nat);
        let prevb = seg_bot(s, st, (k - 1) as nat);
        lemma_seg_sums_bounded(s, st, (k - 1) as nat);
        lemma_seg_sums_wf(s, st, (k - 1) as nat);
        lemma_q_mul_wf(q_int(lo), prevb);
        lemma_q_mul_wf(q_int(hi), prevb);
        lemma_q_mul_wf(q_int(lo), deg);
        lemma_q_mul_wf(q_int(hi), deg);
        lemma_q_mul_wf(p, deg);
        lemma_q_add_le_mono(q_mul(q_int(lo), prevb), q_mul(q_int(lo), deg), prevt, q_mul(p, deg));
        lemma_q_add_le_mono(prevt, q_mul(p, deg), q_mul(q_int(hi), prevb), q_mul(q_int(hi), deg));
        lemma_scale_add_fields(lo, prevb.n, prevb.d, deg.n, deg.d);
        lemma_scale_add_fields(hi, prevb.n, prevb.d, deg.n, deg.d);
        assert(q_add(q_mul(q_int(lo), prevb), q_mul(q_int(lo), deg)) == q_mul(
            q_int(lo),
            q_add(prevb, deg),
        ));
        assert(q_add(q_mul(q_int(hi), prevb), q_mul(q_int(hi), deg)) == q_mul(
            q_int(hi),
            q_add(prevb, deg),
        ));
    }
}

/// With no shape active, both center-of-gravity sums are the zero rational.
proof fn lemma_cog_all_inactive(ss: Seq<Shape>, st: int)
    requires
        forall|i: int| 0 <= i < ss.len() ==> !shape_active(#[trigger] ss[i]),
    ensures
        cog_top(ss, st) == q_zero(),
        cog_bot(ss, st) == q_zero(),
    decreases ss.len(),
{
    if ss.len() != 0 {
        assert forall|i: int| 0 <= i < ss.drop_last().len() implies !shape_active(
            #[trigger] ss.drop_last()[i],
        ) by {
            assert(ss.drop_last()[i] == ss[i]);
        }
        lemma_cog_all_inactive(ss.drop_last(), st);
        assert(!shape_active(ss[ss.len() - 1]));
        lemma_q_add_zero(q_zero());
    }
}

/// With exactly one shape active, the center-of-gravity sums are exactly
/// that shape's segment sums.
proof fn lemma_cog_single_active(ss: Seq<Shape>, st: int, j: int)
    requires
        0 <= j < ss.len(),
        shape_active(ss[j]),
        forall|i: int| 0 <= i < ss.len() && i != j ==> !shape_active(#[trigger] ss[i]),
    ensures
        cog_top(ss, st) == seg_top(ss[j], st, seg_steps(ss[j], st)),
        cog_bot(ss, st) == seg_bot(ss[j], st, seg_steps(ss[j], st)),
    decreases ss.len(),
{
    if j == ss.len() - 1 {
        assert forall|i: int| 0 <= i < ss.drop_last().len() implies !shape_active(
            #[trigger] ss.drop_last()[i],
        ) by {
            assert(ss.drop_last()[i] == ss[i]);
        }
        lemma_cog_all_inactive(ss.drop_last(), st);
        lemma_q_add_zero(contrib_top(ss.last(), st));
        lemma_q_add_zero(contrib_bot(ss.last(), st));
    } else {
        assert forall|i: int| 0 <= i < ss.drop_last().len() && i != j implies !shape_active(
            #[trigger] ss.drop_last()[i],
        ) by {
            assert(ss.drop_last()[i] == ss[i]);
        }
        assert(ss.drop_last()[j] == ss[j]);
        lemma_cog_single_active(ss.drop_last(), st, j);
        lemma_q_add_zero(cog_top(ss.drop_last(), st));
        lemma_q_add_zero(cog_bot(ss.drop_last(), st));
    }
}

/// Rearranges a scaled comparison into a comparison against a quotient.
proof fn lemma_div_bound_fields(c: int, tn: int, td: int, bn: int, bd: int)
    by (nonlinear_arith)
    requires
        1 <= td,
        1 <= bn,
        1 <= bd,
    ensures
        (c * bn) * td <= tn * (1 * bd) ==> c * (td * bn) <= (tn * bd) * 1,
        tn * (1 * bd) <= (c * bn) * td ==> (tn * bd) * 1 <= c * (td * bn),
{
}

/// When exactly one of a variable's sets is active, the exact center of
/// gravity lies within that set's support: between its lower and its upper
/// breakpoint.  With `cog`'s own contract, a defuzzified `Ok` value over a
/// single active set therefore stays on that set's span.
pub proof fn lemma_cog_single_active_within(fs: FuzzySets, st: int, j: int)
    requires
        fs.wf(),
        st >= 1,
        0 <= j < shapes_of(fs).len(),
        shape_active(shapes_of(fs)[j]),
        forall|i: int|
            0 <= i < shapes_of(fs).len() && i != j ==> !shape_active(#[trigger] shapes_of(fs)[i]),
        (shape_hi(shapes_of(fs)[j]) - shape_lo(shapes_of(fs)[j])) % st == 0,
        cog_bot(shapes_of(fs), st).n > 0,
    ensures
        q_le(
            q_int(shape_lo(shapes_of(fs)[j])),
            q_div(cog_top(shapes_of(fs), st), cog_bot(shapes_of(fs), st)),
        ),
        q_le(
            q_div(cog_top(shapes_of(fs), st), cog_bot(shapes_of(fs), st)),
            q_int(shape_hi(shapes_of(fs)[j])),
        ),
{
    let ss = shapes_of(fs);
    let sj = ss[j];
    lemma_shapes_of_wf(fs);
    lemma_cog_single_active(ss, st, j);
    lemma_seg_sums_bounded(sj, st, seg_steps(sj, st));
    lemma_seg_sums_wf(sj, st, seg_steps(sj, st));
    let top = seg_top(sj, st, seg_steps(sj, st));
    let bot = seg_bot(sj, st, seg_steps(sj, st));
    lemma_div_bound_fields(shape_lo(sj), top.n, top.d, bot.n, bot.d);
    lemma_div_bound_fields(shape_hi(sj), top.n, top.d, bot.n, bot.d);
}

/// An exact copy of an `InverseGrade` (the derived clone carries no contract).
fn dup_inverse_grade(g: &InverseGrade) -> (r: InverseGrade)
    ensures
        r == *g,
{
    InverseGrade { name: g.name.clone(), x0: g.x0, x1: g.x1, clip: g.clip }
}

/// An exact copy of a `Triangle`.
fn dup_triangle(t: &Triangle) -> (r: Triangle)
    ensures
        r == *t,
{
    Triangle { name: t.name.clone(), x0: t.x0, x1: t.x1, x2: t.x2, clip: t.clip }
}

/// An exact copy of a `Grade`.
fn dup_grade(g: &Grade) -> (r: Grade)
    ensures
        r == *g,
{
    Grade { name: g.name.clone(), x0: g.x0, x1: g.x1, clip: g.clip }
}

impl Shape {
    /// The shape's lower integration bound.
    fn lo(&self) -> (r: i64)
        ensures
            r as int == shape_lo(*self),
    {
        match self {
            Shape::Falling(g) => g.x0,
            Shape::Peak(t) => t.x0,
            Shape::Rising(g) => g.x0,
        }
    }

    /// The shape's upper integration bound.
    fn hi(&self) -> (r: i64)
        ensures
            r as int == shape_hi(*self),
    {
        match self {
            Shape::Falling(g) => g.x1,
            Shape::Peak(t) => t.x2,
            Shape::Rising(g) => g.x1,
        }
    }

    /// The degree the shape assigns to a position.
    fn eval(&self, p: i64) -> (r: Rat)
        requires
            shape_wf(*self),
            -COORD_LIMIT <= p <= COORD_LIMIT,
        ensures
            r.wf(),
            q_in_unit(r@),
            r@ == shape_deg(*self, q_int(p as int)),
    {
        match self {
            Shape::Falling(g) => g.fuzzify(p),
            Shape::Peak(t) => t.fuzzify(p),
            Shape::Rising(g) => g.fuzzify(p),
        }
    }
}

/// Walks one active shape's sample points and adds every point's weighted
/// and plain degree to the two accumulators.  `None` when an exact value
/// left `Rat`'s range.
fn integrate_shape(s: &Shape, step: i64, top: &Rat, bot: &Rat) -> (r: Option<(Rat, Rat)>)
    requires
        shape_wf(*s),
        0 < step,
        (shape_hi(*s) - shape_lo(*s)) % (step as int) == 0,
        top.wf(),
        bot.wf(),
        bot.num >= 0,
    ensures
        match r {
            Some(tb) => tb.0.wf() && tb.1.wf() && tb.1.num >= 0 && q_eq(
                tb.0@,
                q_add(top@, seg_top(*s, step as int, seg_steps(*s, step as int))),
            ) && q_eq(tb.1@, q_add(bot@, seg_bot(*s, step as int, seg_steps(*s, step as int)))),
            None => true,
        },
        (seg_bot(*s, step as int, seg_steps(*s, step as int)).n == 0 && *top == zero_rat() && *bot
            == zero_rat()) ==> r == Some((zero_rat(), zero_rat())),
        shape_span_fits(*s, step as int, top@, bot@) ==> r is Some,
{
    let ghost st = step as int;
    let lo = s.lo();
    let hi = s.hi();
    proof {
        assert(-COORD_LIMIT as int <= shape_lo(*s) && shape_lo(*s) < shape_hi(*s) && shape_hi(*s)
            <= COORD_LIMIT as int);
    }
    let span: i64 = hi - lo;
    let n: u64 = (span as u64) / (step as u64);
    proof {
        lemma_div_pos_is_pos(span as int, st);
        lemma_div_nonincreasing(span as int, st);
        lemma_fundamental_div_mod(span as int, st);
        assert(span as int == st * (n as int));
        assert(seg_steps(*s, st) == n as nat);
        assert(shape_lo(*s) + 0 * st == shape_lo(*s)) by (nonlinear_arith);
    }
    let ghost all_zero = seg_bot(*s, st, n as nat).n == 0 && *top == zero_rat() && *bot
        == zero_rat();
    let ghost span_fits = shape_span_fits(*s, st, top@, bot@);
    let d0 = s.eval(lo);
    let ghost p0 = q_int(lo as int);
    proof {
        if all_zero {
            lemma_seg_bot_zero(*s, st, n as nat, 0);
            assert(q_mul(p0, d0@).n == 0) by (nonlinear_arith)
                requires
                    d0@.n == 0,
            ;
        }
        if span_fits {
            assert(seg_term(*s, st, 0) == q_mul(p0, shape_deg(*s, p0)));
            assert(q_fits(q_mul(p0, d0@)));
        }
    }
    let t0 = match Rat::from_int(lo).checked_mul(&d0) {
        Some(v) => v,
        None => {
            proof {
                assert(!all_zero && !span_fits);
            }
            return None;
        },
    };
    proof {
        if all_zero {
            assert(q_add(top@, t0@).n == 0 && q_add(bot@, d0@).n == 0) by (nonlinear_arith)
                requires
                    top@.n == 0,
                    top@.d == 1,
                    t0@.n == 0,
                    t0@.d == 1,
                    bot@.n == 0,
                    bot@.d == 1,
                    d0@.n == 0,
            ;
        }
        if span_fits {
            lemma_seg_sums_wf(*s, st, 0);
            lemma_shape_deg_wf(*s, p0);
            lemma_q_mul_wf(p0, shape_deg(*s, p0));
            assert(seg_top(*s, st, 0) == q_mul(p0, shape_deg(*s, p0)));
            assert(seg_bot(*s, st, 0) == shape_deg(*s, p0));
            lemma_q_add_wf(top@, seg_top(*s, st, 0));
            lemma_q_add_wf(top@, t0@);
            lemma_q_add_congruence(top@, top@, t0@, seg_top(*s, st, 0));
            lemma_q_fits_congruence(q_add(top@, seg_top(*s, st, 0)), q_add(top@, t0@));
        }
    }
    let mut t = match top.checked_add(&t0) {
        Some(v) => v,
        None => {
            proof {
                assert(!all_zero && !span_fits);
            }
            return None;
        },
    };
    let mut b = match bot.checked_add(&d0) {
        Some(v) => v,
        None => {
            proof {
                assert(!all_zero && !span_fits);
            }
            return None;
        },
    };
    proof {
        lemma_shape_deg_wf(*s, p0);
        lemma_q_mul_wf(p0, shape_deg(*s, p0));
        assert(seg_top(*s, st, 0) == q_mul(p0, shape_deg(*s, p0)));
        assert(seg_bot(*s, st, 0) == shape_deg(*s, p0));
        lemma_add_second(t@, top@, t0@, seg_top(*s, st, 0));
        lemma_q_add_sign(bot@, d0@);
        lemma_q_add_wf(bot@, d0@);
        lemma_q_eq_zero(b@, q_add(bot@, d0@));
    }
    if n == 0 {
        return Some((t, b));
    }
    let mut pos: i64 = lo;
    let mut k: u64 = 1;
    while k <= n
        invariant
            1 <= k <= n + 1,
            shape_wf(*s),
            0 < step,
            st == step as int,
            span as int == shape_hi(*s) - shape_lo(*s),
            span as int == st * (n as int),
            n >= 1,
            seg_steps(*s, st) == n as nat,
            -COORD_LIMIT as int <= shape_lo(*s),
            shape_hi(*s) <= COORD_LIMIT as int,
            lo as int == shape_lo(*s),
            pos as int == shape_lo(*s) + (k - 1) as int * st,
            t.wf(),
            b.wf(),
            b.num >= 0,
            top.wf(),
            bot.wf(),
            bot.num >= 0,
            q_eq(t@, q_add(top@, seg_top(*s, st, (k - 1) as nat))),
            q_eq(b@, q_add(bot@, seg_bot(*s, st, (k - 1) as nat))),
            (seg_bot(*s, st, n as nat).n == 0 && *top == zero_rat() && *bot == zero_rat()) ==> (t
                == zero_rat() && b == zero_rat()),
        decreases n + 1 - k,
    {
        let ghost all_zero = seg_bot(*s, st, n as nat).n == 0 && *top == zero_rat() && *bot
            == zero_rat();
        let ghost span_fits = shape_span_fits(*s, st, top@, bot@);
        proof {
            assert((k - 1) as int * st + st == k as int * st) by (nonlinear_arith);
            assert(0 < k as int * st <= span as int) by (nonlinear_arith)
                requires
                    1 <= k as int <= n as int,
                    span as int == st * (n as int),
                    st >= 1,
            ;
        }
        let p = pos + step;
        let dv = s.eval(p);
        let ghost pq = q_int(p as int);
        proof {
            if all_zero {
                lemma_seg_bot_zero(*s, st, n as nat, k as nat);
                assert(q_mul(pq, dv@).n == 0) by (nonlinear_arith)
                    requires
                        dv@.n == 0,
                ;
            }
            if span_fits {
                assert(seg_term(*s, st, k as nat) == q_mul(pq, shape_deg(*s, pq)));
                assert(q_fits(q_mul(pq, dv@)));
            }
        }
        let term = match Rat::from_int(p).checked_mul(&dv) {
            Some(v) => v,
            None => {
                proof {
                    assert(!all_zero && !span_fits);
                }
                return None;
            },
        };
        proof {
            if all_zero {
                assert(q_add(t@, term@).n == 0 && q_add(b@, dv@).n == 0) by (nonlinear_arith)
                    requires
                        t@.n == 0,
                        t@.d == 1,
                        term@.n == 0,
                        term@.d == 1,
                        b@.n == 0,
                        b@.d == 1,
                        dv@.n == 0,
                ;
            }
            if span_fits {
                let prevt = seg_top(*s, st, (k - 1) as nat);
                let prevb = seg_bot(*s, st, (k - 1) as nat);
                lemma_seg_sums_wf(*s, st, (k - 1) as nat);
                lemma_seg_sums_wf(*s, st, k as nat);
                lemma_shape_deg_wf(*s, pq);
                lemma_q_mul_wf(pq, shape_deg(*s, pq));
                assert(seg_top(*s, st, k as nat) == q_add(prevt, q_mul(pq, shape_deg(*s, pq))));
                assert(seg_bot(*s, st, k as nat) == q_add(prevb, shape_deg(*s, pq)));
                lemma_add_chain(t@, term@, top@, prevt, q_mul(pq, shape_deg(*s, pq)));
                lemma_add_chain(b@, dv@, bot@, prevb, shape_deg(*s, pq));
                lemma_q_add_wf(top@, seg_top(*s, st, k as nat));
                lemma_q_add_wf(t@, term@);
                lemma_q_add_wf(bot@, seg_bot(*s, st, k as nat));
                lemma_q_add_wf(b@, dv@);
                lemma_q_fits_congruence(
                    q_add(top@, seg_top(*s, st, k as nat)),
                    q_add(t@, term@),
                );
                lemma_q_fits_congruence(
                    q_add(bot@, seg_bot(*s, st, k as nat)),
                    q_add(b@, dv@),
                );
            }
        }
        let t2 = match t.checked_add(&term) {
            Some(v) => v,
            None => {
                proof {
                    assert(!all_zero && !span_fits);
                }
                return None;
            },
        };
        let b2 = match b.checked_add(&dv) {
            Some(v) => v,
            None => {
                proof {
                    assert(!all_zero && !span_fits);
                }
                return None;
            },
        };
        proof {
            let prevt = seg_top(*s, st, (k - 1) as nat);
            let prevb = seg_bot(*s, st, (k - 1) as nat);
            lemma_seg_sums_wf(*s, st, (k - 1) as nat);
            lemma_shape_deg_wf(*s, pq);
            lemma_q_mul_wf(pq, shape_deg(*s, pq));
            assert(seg_top(*s, st, k as nat) == q_add(prevt, q_mul(pq, shape_deg(*s, pq))));
            assert(seg_bot(*s, st, k as nat) == q_add(prevb, shape_deg(*s, pq)));
            lemma_sum_step(t2@, t@, term@, top@, prevt, q_mul(pq, shape_deg(*s, pq)));
            lemma_sum_step(b2@, b@, dv@, bot@, prevb, shape_deg(*s, pq));
            lemma_seg_sums_wf(*s, st, k as nat);
            lemma_q_add_wf(bot@, seg_bot(*s, st, k as nat));
            lemma_q_add_sign(bot@, seg_bot(*s, st, k as nat));
            lemma_q_eq_zero(b2@, q_add(bot@, seg_bot(*s, st, k as nat)));
        }
        t = t2;
        b = b2;
        pos = p;
        k = k + 1;
    }
    Some((t, b))
}

impl FuzzySets {
    /// The exact center of gravity of the aggregated region, sampling every
    /// active set from its lower to its upper breakpoint in steps of `step`:
    /// the sum of `position * membership(position)` over all samples,
    /// divided by the sum of the memberships.
    ///
    /// The step must be positive and evenly divide every active set's span
    /// (else `StepMismatch`); when every sampled membership is zero there is
    /// nothing to defuzzify (`EmptyRegion`); `Overflow` reports an exact
    /// intermediate value outside `Rat`'s range, and cannot occur when every
    /// such value has a representation in range (`cog_fits`), in which case
    /// a crisp value is owed.
    pub fn cog(&self, step: i64) -> (r: Result<Rat, CogError>)
        requires
            self.wf(),
        ensures
            (r == Result::<Rat, CogError>::Err(CogError::StepMismatch)) == !steps_ok(
                shapes_of(*self),
                step as int,
            ),
            r matches Ok(v) ==> v.wf() && !q_eq(cog_bot(shapes_of(*self), step as int), q_zero())
                && q_eq(
                v@,
                q_div(
                    cog_top(shapes_of(*self), step as int),
                    cog_bot(shapes_of(*self), step as int),
                ),
            ),
            (r == Result::<Rat, CogError>::Err(CogError::EmptyRegion)) == (steps_ok(
                shapes_of(*self),
                step as int,
            ) && q_eq(cog_bot(shapes_of(*self), step as int), q_zero())),
            (steps_ok(shapes_of(*self), step as int) && !q_eq(
                cog_bot(shapes_of(*self), step as int),
                q_zero(),
            ) && cog_fits(*self, step as int)) ==> r is Ok,
    {
        let ghost ss = shapes_of(*self);
        let ghost st = step as int;
        if step <= 0 {
            return Err(CogError::StepMismatch);
        }
        let su: u64 = step as u64;

        // Validate the step against every active set's span.
        if self.start.clip.num != 0 {
            let sp: u64 = (self.start.x1 - self.start.x0) as u64;
            if sp % su != 0 {
                proof {
                    assert(shape_active(ss[0]));
                }
                return Err(CogError::StepMismatch);
            }
        }
        let mut i: usize = 0;
        while i < self.triangles.len()
            invariant
                0 <= i <= self.triangles@.len(),
                self.wf(),
                ss == shapes_of(*self),
                st == step as int,
                0 < step,
                su == step as u64,
                shape_active(ss[0]) ==> (shape_hi(ss[0]) - shape_lo(ss[0])) % st == 0,
                forall|j: int|
                    1 <= j < 1 + i && shape_active(#[trigger] ss[j]) ==> (shape_hi(ss[j])
                        - shape_lo(ss[j])) % st == 0,
            decreases self.triangles@.len() - i,
        {
            proof {
                assert(ss[1 + i as int] == Shape::Peak(self.triangles@[i as int]));
            }
            if self.triangles[i].clip.num != 0 {
                let sp: u64 = (self.triangles[i].x2 - self.triangles[i].x0) as u64;
                if sp % su != 0 {
                    return Err(CogError::StepMismatch);
                }
            }
            i = i + 1;
        }
        if self.end.clip.num != 0 {
            let sp: u64 = (self.end.x1 - self.end.x0) as u64;
            if sp % su != 0 {
                proof {
                    assert(ss[ss.len() - 1] == Shape::Rising(self.end));
                    assert(shape_active(ss[ss.len() - 1]));
                }
                return Err(CogError::StepMismatch);
            }
        }
        proof {
            assert(ss[ss.len() - 1] == Shape::Rising(self.end));
            assert forall|j: int|
                0 <= j < ss.len() && shape_active(#[trigger] ss[j]) implies (shape_hi(ss[j])
                - shape_lo(ss[j])) % st == 0 by {
                if j == 0 {
                } else if j < ss.len() - 1 {
                } else {
                }
            }
            assert(steps_ok(ss, st));
        }

        // Integrate the shapes in order, carrying exact partial sums.
        let mut top = Rat::zero();
        let mut bot = Rat::zero();
        proof {
            assert(ss.take(0) =~= Seq::<Shape>::empty());
            assert(cog_top(Seq::<Shape>::empty(), st) == q_zero());
            assert(cog_bot(Seq::<Shape>::empty(), st) == q_zero());
        }
        let ghost pt0 = top@;
        let ghost pb0 = bot@;
        proof {
            if cog_bot(ss, st).n == 0 {
                lemma_shapes_of_wf(*self);
                lemma_cog_bot_zero(ss, st, 0);
            }
        }
        if self.start.clip.num != 0 {
            let sh = Shape::Falling(dup_inverse_grade(&self.start));
            proof {
                assert(sh == ss[0]);
            }
            match integrate_shape(&sh, step, &top, &bot) {
                Some(tb) => {
                    top = tb.0;
                    bot = tb.1;
                },
                None => {
                    proof {
                        lemma_cog_sums_wf_entry(*self, st);
                        lemma_q_cmp_consts(cog_bot(ss, st));
                        assert(cog_bot(ss, st).n != 0);
                        if cog_fits(*self, st) {
                            assert(shape_active(shapes_of(*self)[0]));
                            lemma_cog_take_wf(*self, 0, st);
                            lemma_span_fits_base_change(
                                ss[0],
                                st,
                                cog_top(ss.take(0), st),
                                cog_bot(ss.take(0), st),
                                top@,
                                bot@,
                            );
                            assert(false);
                        }
                    }
                    return Err(CogError::Overflow);
                },
            }
        }
        proof {
            assert(ss[0] == Shape::Falling(self.start));
            lemma_cog_extend(*self, st, 0, pt0, pb0, top@, bot@);
        }

        let mut ti: usize = 0;
        while ti < self.triangles.len()
            invariant
                0 <= ti <= self.triangles@.len(),
                self.wf(),
                ss == shapes_of(*self),
                st == step as int,
                0 < step,
                steps_ok(ss, st),
                top.wf(),
                bot.wf(),
                bot.num >= 0,
                q_eq(top@, cog_top(ss.take(1 + ti as int), st)),
                q_eq(bot@, cog_bot(ss.take(1 + ti as int), st)),
                cog_bot(ss, st).n == 0 ==> top == zero_rat() && bot == zero_rat(),
            decreases self.triangles@.len() - ti,
        {
            let ghost pt = top@;
            let ghost pb = bot@;
            proof {
                assert(ss[1 + ti as int] == Shape::Peak(self.triangles@[ti as int]));
                if cog_bot(ss, st).n == 0 {
                    lemma_shapes_of_wf(*self);
                    lemma_cog_bot_zero(ss, st, 1 + ti as int);
                }
            }
            if self.triangles[ti].clip.num != 0 {
                let sh = Shape::Peak(dup_triangle(&self.triangles[ti]));
                proof {
                    assert(sh == ss[1 + ti as int]);
                    assert(shape_active(ss[1 + ti as int]));
                }
                match integrate_shape(&sh, step, &top, &bot) {
                    Some(tb) => {
                        top = tb.0;
                        bot = tb.1;
                    },
                    None => {
                        proof {
                            lemma_cog_sums_wf_entry(*self, st);
                            lemma_q_cmp_consts(cog_bot(ss, st));
                            assert(cog_bot(ss, st).n != 0);
                            if cog_fits(*self, st) {
                                assert(shape_active(shapes_of(*self)[1 + ti as int]));
                                lemma_cog_take_wf(*self, 1 + ti as int, st);
                                lemma_span_fits_base_change(
                                    ss[1 + ti as int],
                                    st,
                                    cog_top(ss.take(1 + ti as int), st),
                                    cog_bot(ss.take(1 + ti as int), st),
                                    top@,
                                    bot@,
                                );
                                assert(false);
                            }
                        }
                        return Err(CogError::Overflow);
                    },
                }
            }
            proof {
                lemma_cog_extend(*self, st, 1 + ti as int, pt, pb, top@, bot@);
            }
            ti = ti + 1;
        }

        let ghost pt1 = top@;
        let ghost pb1 = bot@;
        proof {
            assert(ss[ss.len() - 1] == Shape::Rising(self.end));
            if cog_bot(ss, st).n == 0 {
                lemma_shapes_of_wf(*self);
                lemma_cog_bot_zero(ss, st, ss.len() - 1);
            }
        }
        if self.end.clip.num != 0 {
            let sh = Shape::Rising(dup_grade(&self.end));
            proof {
                assert(sh == ss[ss.len() - 1]);
                assert(shape_active(ss[ss.len() - 1]));
            }
            match integrate_shape(&sh, step, &top, &bot) {
                Some(tb) => {
                    top = tb.0;
                    bot = tb.1;
                },
                None => {
                    proof {
                        lemma_cog_sums_wf_entry(*self, st);
                        lemma_q_cmp_consts(cog_bot(ss, st));
                        assert(cog_bot(ss, st).n != 0);
                        if cog_fits(*self, st) {
                            assert(shape_active(shapes_of(*self)[ss.len() - 1]));
                            lemma_cog_take_wf(*self, ss.len() - 1, st);
                            lemma_span_fits_base_change(
                                ss[ss.len() - 1],
                                st,
                                cog_top(ss.take(ss.len() - 1), st),
                                cog_bot(ss.take(ss.len() - 1), st),
                                top@,
                                bot@,
                            );
                            assert(false);
                        }
                    }
                    return Err(CogError::Overflow);
                },
            }
        }
        proof {
            lemma_cog_extend(*self, st, ss.len() - 1, pt1, pb1, top@, bot@);
            assert(ss.take(ss.len() as int) =~= ss);
            lemma_cog_sums_wf_entry(*self, st);
        }

        if bot.num == 0 {
            proof {
                lemma_q_eq_zero(bot@, cog_bot(ss, st));
                lemma_q_cmp_consts(cog_bot(ss, st));
            }
            return Err(CogError::EmptyRegion);
        }
        proof {
            lemma_q_eq_zero(bot@, cog_bot(ss, st));
            lemma_q_cmp_consts(cog_bot(ss, st));
        }
        match top.checked_div(&bot) {
            Some(v) => {
                proof {
                    lemma_q_div_congruence(top@, cog_top(ss, st), bot@, cog_bot(ss, st));
                    lemma_q_div_wf(top@, bot@);
                    lemma_q_div_wf(cog_top(ss, st), cog_bot(ss, st));
                    lemma_q_eq_trans(
                        v@,
                        q_div(top@, bot@),
                        q_div(cog_top(ss, st), cog_bot(ss, st)),
                    );
                }
                Ok(v)
            },
            None => {
                proof {
                    if cog_fits(*self, st) {
                        lemma_q_div_congruence(top@, cog_top(ss, st), bot@, cog_bot(ss, st));
                        lemma_q_div_wf(top@, bot@);
                        lemma_q_div_wf(cog_top(ss, st), cog_bot(ss, st));
                        lemma_q_fits_congruence(
                            q_div(cog_top(ss, st), cog_bot(ss, st)),
                            q_div(top@, bot@),
                        );
                        assert(false);
                    }
                }
                Err(CogError::Overflow)
            },
        }
    }
}

/// The full sums over a variable's shapes are well-formed.
proof fn lemma_cog_sums_wf_entry(fs: FuzzySets, st: int)
    requires
        fs.wf(),
    ensures
        q_wf(cog_top(shapes_of(fs), st)),
        q_wf(cog_bot(shapes_of(fs), st)),
        cog_bot(shapes_of(fs), st).n >= 0,
{
    lemma_shapes_of_wf(fs);
    lemma_cog_sums_wf(shapes_of(fs), st);
}

/// Two breakpoints strictly increase and stay within `COORD_LIMIT`.
fn check_shape_bounds(x0: i64, x1: i64) -> (b: bool)
    ensures
        b == (-COORD_LIMIT <= x0 && x0 < x1 && x1 <= COORD_LIMIT),
{
    -COORD_LIMIT <= x0 && x0 < x1 && x1 <= COORD_LIMIT
}

/// A clip ceiling is a well-formed degree in `[0, 1]`.
fn check_clip(c: &Rat) -> (b: bool)
    ensures
        b == (c.wf() && q_in_unit(c@)),
{
    0 < c.den && c.den <= RAT_LIMIT && 0 <= c.num && c.num <= c.den
}

/// `value < x`, comparing a rational against a position.
fn value_below(value: &Rat, x: i64) -> (r: bool)
    requires
        value.wf(),
        -COORD_LIMIT <= x <= COORD_LIMIT,
    ensures
        r == q_lt(value@, q_int(x as int)),
{
    proof {
        lemma_mul_bound(x as int, value.den as int, COORD_LIMIT as int, RAT_LIMIT as int);
    }
    (value.num as i128) < (x as i128) * (value.den as i128)
}

/// `x < value`, comparing a position against a rational.
fn value_above(value: &Rat, x: i64) -> (r: bool)
    requires
        value.wf(),
        -COORD_LIMIT <= x <= COORD_LIMIT,
    ensures
        r == q_lt(q_int(x as int), value@),
{
    proof {
        lemma_mul_bound(x as int, value.den as int, COORD_LIMIT as int, RAT_LIMIT as int);
    }
    (x as i128) * (value.den as i128) < (value.num as i128)
}

/// The degree the last conclusion pair carrying `label` asserts, or zero.
fn last_degree(conclusions: &Vec<FuzzySetResult>, label: &String) -> (r: Rat)
    requires
        forall|i: int|
            0 <= i < conclusions@.len() ==> (#[trigger] conclusions@[i]).wf_result(),
    ensures
        r.wf(),
        q_in_unit(r@),
        r@ == agg_clip(conclusions_view(conclusions@), label@),
{
    let ghost cv = conclusions_view(conclusions@);
    let mut cur: Rat = Rat::zero();
    let mut i: usize = 0;
    while i < conclusions.len()
        invariant
            0 <= i <= conclusions@.len(),
            forall|k: int|
                0 <= k < conclusions@.len() ==> (#[trigger] conclusions@[k]).wf_result(),
            cv == conclusions_view(conclusions@),
            cur.wf(),
            q_in_unit(cur@),
            cur@ == agg_clip(cv.take(i as int), label@),
        decreases conclusions@.len() - i,
    {
        let m = &conclusions[i];
        let ghost outer_prev = agg_clip(cv.take(i as int), label@);
        let mut j: usize = 0;
        while j < m.items.len()
            invariant
                0 <= j <= m.items@.len(),
                m.wf_result(),
                cur.wf(),
                q_in_unit(cur@),
                matches_of(m@.take(j as int), label@).len() > 0 ==> cur@ == matches_of(
                    m@.take(j as int),
                    label@,
                ).last(),
                matches_of(m@.take(j as int), label@).len() == 0 ==> cur@ == outer_prev,
            decreases m.items@.len() - j,
        {
            proof {
                assert(m@.take(j as int + 1) =~= m@.take(j as int).push(m@[j as int]));
                lemma_matches_of_push(m@.take(j as int), label@, m@[j as int]);
            }
            if m.items[j].0 == *label {
                cur = m.items[j].1;
            }
            j = j + 1;
        }
        proof {
            assert(m@.take(m.items@.len() as int) =~= m@);
            assert(cv.take(i as int + 1) =~= cv.take(i as int).push(m@));
            lemma_agg_clip_push(cv.take(i as int), label@, m@);
        }
        i = i + 1;
    }
    proof {
        assert(cv.take(conclusions@.len() as int) =~= cv);
    }
    cur
}

impl FuzzySets {
    /// Both edges and every triangle are well-formed shapes.
    pub open spec fn wf(self) -> bool {
        self.start.wf() && self.end.wf() && forall|i: int|
            0 <= i < self.triangles@.len() ==> (#[trigger] self.triangles@[i]).wf()
    }

    /// Decides `wf` at run time, for callers outside verified code that
    /// must validate a variable before using it.
    pub fn check_wf(&self) -> (b: bool)
        ensures
            b == self.wf(),
    {
        let mut ok: bool = check_shape_bounds(self.start.x0, self.start.x1) && check_clip(
            &self.start.clip,
        ) && check_shape_bounds(self.end.x0, self.end.x1) && check_clip(&self.end.clip);
        let mut i: usize = 0;
        while i < self.triangles.len()
            invariant
                0 <= i <= self.triangles@.len(),
                ok == (self.start.wf() && self.end.wf() && forall|j: int|
                    0 <= j < i ==> (#[trigger] self.triangles@[j]).wf()),
            decreases self.triangles@.len() - i,
        {
            let t = &self.triangles[i];
            if !(check_shape_bounds(t.x0, t.x1) && t.x1 < t.x2 && t.x2 <= COORD_LIMIT && check_clip(
                &t.clip,
            )) {
                ok = false;
            }
            i = i + 1;
        }
        ok
    }

    /// Whether `set` names one of this variable's sets: the falling edge,
    /// the rising edge, or any triangle; false for every other string.
    pub fn contains(&self, set: &String) -> (r: bool)
        ensures
            r == contains_label(*self, set@),
    {
        let mut found: bool = self.start.name == *set || self.end.name == *set;
        let mut i: usize = 0;
        while i < self.triangles.len()
            invariant
                0 <= i <= self.triangles@.len(),
                found == (self.start.name@ == set@ || self.end.name@ == set@ || exists|j: int|
                    0 <= j < i && (#[trigger] self.triangles@[j]).name@ == set@),
            decreases self.triangles@.len() - i,
        {
            if self.triangles[i].name == *set {
                found = true;
            }
            i = i + 1;
        }
        found
    }

    /// Fuzzifies a position: evaluates the falling edge, every triangle in
    /// order, then the rising edge, and keeps the `(label, degree)` pairs
    /// whose degree is strictly positive.
    pub fn fuzzify_input(&self, input: i64) -> (res: FuzzySetResult)
        requires
            self.wf(),
            -COORD_LIMIT <= input <= COORD_LIMIT,
        ensures
            res.wf_result(),
            res@ == positives(all_pairs(*self, q_int(input as int))),
    {
        let ghost p = q_int(input as int);
        let ghost ap = all_pairs(*self, p);
        let mut items: Vec<(String, Rat)> = Vec::new();

        let d0 = self.start.fuzzify(input);
        proof {
            assert(positives(Seq::<(Seq<char>, Q)>::empty()) == Seq::<(Seq<char>, Q)>::empty());
            assert(ap.take(1).drop_last() =~= Seq::<(Seq<char>, Q)>::empty());
            assert(ap.take(1).last() == ap[0]);
            lemma_q_cmp_consts(d0@);
        }
        if d0.num > 0 {
            items.push((self.start.name.clone(), d0));
            proof {
                assert(items_view(items@) =~= positives(ap.take(1)));
            }
        } else {
            proof {
                assert(items_view(items@) =~= positives(ap.take(1)));
            }
        }

        let mut ti: usize = 0;
        while ti < self.triangles.len()
            invariant
                0 <= ti <= self.triangles@.len(),
                self.wf(),
                -COORD_LIMIT <= input <= COORD_LIMIT,
                p == q_int(input as int),
                ap == all_pairs(*self, p),
                items_view(items@) == positives(ap.take(1 + ti as int)),
                pairs_wf(items_view(items@)),
            decreases self.triangles@.len() - ti,
        {
            let ghost prev = items_view(items@);
            let d = self.triangles[ti].fuzzify(input);
            proof {
                assert(ap.take(1 + ti as int + 1) =~= ap.take(1 + ti as int).push(
                    ap[1 + ti as int],
                ));
                lemma_positives_push(ap.take(1 + ti as int), ap[1 + ti as int]);
                assert(ap[1 + ti as int].1 == triangle_deg(self.triangles@[ti as int], p));
                lemma_q_cmp_consts(d@);
            }
            if d.num > 0 {
                items.push((self.triangles[ti].name.clone(), d));
                proof {
                    assert(items_view(items@) =~= prev.push(
                        (self.triangles@[ti as int].name@, d@),
                    ));
                }
            }
            ti = ti + 1;
        }

        let ghost prev_end = items_view(items@);
        let d1 = self.end.fuzzify(input);
        proof {
            let last: int = shape_count(*self) as int - 1;
            assert(ap.take(last + 1) =~= ap.take(last).push(ap[last]));
            lemma_positives_push(ap.take(last), ap[last]);
            assert(ap[last].1 == grade_deg(self.end, p));
            lemma_q_cmp_consts(d1@);
        }
        if d1.num > 0 {
            items.push((self.end.name.clone(), d1));
            proof {
                assert(items_view(items@) =~= prev_end.push((self.end.name@, d1@)));
            }
        }
        let res = FuzzySetResult { items };
        proof {
            assert(ap.take(shape_count(*self) as int) =~= ap);
        }
        res
    }

    /// A fresh copy of the variable whose every clip records what the
    /// conclusions assert for its set: the degree of the last matching pair,
    /// or zero where no conclusion mentions the set.  `self` is not changed.
    pub fn aggregate(&self, conclusions: Vec<FuzzySetResult>) -> (r: FuzzySets)
        requires
            self.wf(),
            forall|i: int|
                0 <= i < conclusions@.len() ==> (#[trigger] conclusions@[i]).wf_result(),
        ensures
            r.wf(),
            r.start.name == self.start.name,
            r.start.x0 == self.start.x0,
            r.start.x1 == self.start.x1,
            r.start.clip@ == agg_clip(conclusions_view(conclusions@), self.start.name@),
            r.end.name == self.end.name,
            r.end.x0 == self.end.x0,
            r.end.x1 == self.end.x1,
            r.end.clip@ == agg_clip(conclusions_view(conclusions@), self.end.name@),
            r.triangles@.len() == self.triangles@.len(),
            forall|i: int|
                0 <= i < self.triangles@.len() ==> {
                    let t = #[trigger] r.triangles@[i];
                    let s = self.triangles@[i];
                    t.name == s.name && t.x0 == s.x0 && t.x1 == s.x1 && t.x2 == s.x2 && t.clip@
                        == agg_clip(conclusions_view(conclusions@), s.name@)
                },
    {
        let start_clip = last_degree(&conclusions, &self.start.name);
        let end_clip = last_degree(&conclusions, &self.end.name);
        let mut tris: Vec<Triangle> = Vec::new();
        let mut i: usize = 0;
        while i < self.triangles.len()
            invariant
                0 <= i <= self.triangles@.len(),
                self.wf(),
                forall|k: int|
                    0 <= k < conclusions@.len() ==> (#[trigger] conclusions@[k]).wf_result(),
                tris@.len() == i,
                forall|j: int|
                    0 <= j < i ==> {
                        let t = #[trigger] tris@[j];
                        let s = self.triangles@[j];
                        t.wf() && t.name == s.name && t.x0 == s.x0 && t.x1 == s.x1 && t.x2 == s.x2
                            && t.clip@ == agg_clip(conclusions_view(conclusions@), s.name@)
                    },
            decreases self.triangles@.len() - i,
        {
            let c = last_degree(&conclusions, &self.triangles[i].name);
            let t = Triangle {
                name: self.triangles[i].name.clone(),
                x0: self.triangles[i].x0,
                x1: self.triangles[i].x1,
                x2: self.triangles[i].x2,
                clip: c,
            };
            tris.push(t);
            i = i + 1;
        }
        FuzzySets {
            start: InverseGrade {
                name: self.start.name.clone(),
                x0: self.start.x0,
                x1: self.start.x1,
                clip: start_clip,
            },
            triangles: tris,
            end: Grade {
                name: self.end.name.clone(),
                x0: self.end.x0,
                x1: self.end.x1,
                clip: end_clip,
            },
        }
    }

    /// Re-fuzzifies a crisp (rational) value against this variable: when
    /// exactly one set assigns it a positive degree, that set's name;
    /// otherwise the empty string.
    pub fn final_selection(&self, value: &Rat) -> (r: String)
        requires
            self.wf(),
            value.wf(),
        ensures
            positives(all_pairs(*self, value@)).len() == 1 ==> r@ == positives(
                all_pairs(*self, value@),
            )[0].0,
            positives(all_pairs(*self, value@)).len() != 1 ==> r@ == Seq::<char>::empty(),
    {
        let ghost p = value@;
        let ghost ap = all_pairs(*self, p);
        let mut count: usize = 0;
        let mut lbl: String = String::new();

        proof {
            assert(positives(Seq::<(Seq<char>, Q)>::empty()) == Seq::<(Seq<char>, Q)>::empty());
            assert(ap.take(1).drop_last() =~= Seq::<(Seq<char>, Q)>::empty());
            assert(ap.take(1).last() == ap[0]);
            lemma_inverse_grade_positivity(self.start, p);
        }
        if self.start.clip.num > 0 && value_below(value, self.start.x1) {
            count = 1;
            lbl = self.start.name.clone();
        }

        let mut ti: usize = 0;
        while ti < self.triangles.len()
            invariant
                0 <= ti <= self.triangles@.len(),
                self.wf(),
                value.wf(),
                p == value@,
                ap == all_pairs(*self, p),
                count <= 2,
                count < 2 ==> count == positives(ap.take(1 + ti as int)).len(),
                count == 2 ==> positives(ap.take(1 + ti as int)).len() >= 2,
                count == 1 ==> lbl@ == positives(ap.take(1 + ti as int)).last().0,
            decreases self.triangles@.len() - ti,
        {
            proof {
                assert(ap.take(1 + ti as int + 1) =~= ap.take(1 + ti as int).push(
                    ap[1 + ti as int],
                ));
                lemma_positives_push(ap.take(1 + ti as int), ap[1 + ti as int]);
                lemma_triangle_positivity(self.triangles@[ti as int], p);
                assert(ap[1 + ti as int].1 == triangle_deg(self.triangles@[ti as int], p));
            }
            let t = &self.triangles[ti];
            if t.clip.num > 0 && value_above(value, t.x0) && value_below(value, t.x2) {
                if count < 2 {
                    count = count + 1;
                }
                lbl = t.name.clone();
            }
            ti = ti + 1;
        }

        let ghost last: int = shape_count(*self) as int - 1;
        proof {
            assert(ap.take(last + 1) =~= ap.take(last).push(ap[last]));
            lemma_positives_push(ap.take(last), ap[last]);
            lemma_grade_positivity(self.end, p);
            assert(ap[last].1 == grade_deg(self.end, p));
        }
        if self.end.clip.num > 0 && value_above(value, self.end.x0) {
            if count < 2 {
                count = count + 1;
            }
            lbl = self.end.name.clone();
        }
        proof {
            assert(ap.take(shape_count(*self) as int) =~= ap);
        }
        if count == 1 {
            lbl
        } else {
            String::new()
        }
    }
}

} // verus!
