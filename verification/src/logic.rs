//! Fuzzy truth values and fuzzification results.
//!
//! A [`FuzzyBool`] pairs a crisp truth flag with a membership degree; the
//! flag and the degree travel independently through the algebra.  A
//! [`FuzzySetResult`] is the ordered list of `(label, degree)` pairs one
//! fuzzification produced; looking a label up yields a [`FuzzyBool`], and
//! [`FuzzyBool::fire`] turns an evaluated rule back into a result asserted
//! on an output variable.

use crate::rat::{
    q_compl, q_eq, q_in_unit, q_max, q_min, q_wf, q_zero, Q, Rat, RAT_LIMIT,
};
use crate::sets::{contains_label, FuzzySets};
use vstd::prelude::*;

verus! {

/// A fuzzy truth value: a crisp flag and a degree in `[0, 1]`.
#[derive(Clone, Copy, Debug)]
pub struct FuzzyBool {
    pub is_true: bool,
    pub value: Rat,
}

/// The ordered `(label, degree)` pairs one fuzzification call produced.
#[derive(Debug)]
pub struct FuzzySetResult {
    pub items: Vec<(String, Rat)>,
}

/// The ghost reading of a pair list: each `(String, Rat)` as its views.
pub open spec fn items_view(items: Seq<(String, Rat)>) -> Seq<(Seq<char>, Q)> {
    items.map_values(|it: (String, Rat)| (it.0@, it.1@))
}

impl View for FuzzySetResult {
    type V = Seq<(Seq<char>, Q)>;

    open spec fn view(&self) -> Seq<(Seq<char>, Q)> {
        items_view(self.items@)
    }
}

/// Every degree in the pair sequence is a well-formed value in `[0, 1]`,
/// on a denominator within `Rat`'s range.
pub open spec fn pairs_wf(s: Seq<(Seq<char>, Q)>) -> bool {
    forall|i: int|
        0 <= i < s.len() ==> q_wf((#[trigger] s[i]).1) && q_in_unit(s[i].1) && s[i].1.d
            <= RAT_LIMIT as int
}

/// The degrees of the pairs carrying `label`, in order.
pub open spec fn matches_of(s: Seq<(Seq<char>, Q)>, label: Seq<char>) -> Seq<Q>
    decreases s.len(),
{
    if s.len() == 0 {
        Seq::empty()
    } else {
        let rest = matches_of(s.drop_last(), label);
        if s.last().0 == label {
            rest.push(s.last().1)
        } else {
            rest
        }
    }
}

/// How `matches_of` grows when one pair is appended.
pub proof fn lemma_matches_of_push(s: Seq<(Seq<char>, Q)>, label: Seq<char>, e: (Seq<char>, Q))
    ensures
        e.0 == label ==> matches_of(s.push(e), label) == matches_of(s, label).push(e.1),
        e.0 != label ==> matches_of(s.push(e), label) == matches_of(s, label),
{
    assert(s.push(e).drop_last() =~= s);
    assert(s.push(e).last() == e);
}

impl FuzzyBool {
    /// The degree is a well-formed value in `[0, 1]`.
    pub open spec fn wf(self) -> bool {
        self.value.wf() && q_in_unit(self.value@)
    }

    /// Conjunction: both flags must hold, and the degree is the minimum.
    pub fn and(&self, b: FuzzyBool) -> (r: FuzzyBool)
        requires
            self.wf(),
            b.wf(),
        ensures
            r.wf(),
            r.is_true == (self.is_true && b.is_true),
            r.value@ == q_min(self.value@, b.value@),
    {
        FuzzyBool { is_true: self.is_true && b.is_true, value: self.value.min(&b.value) }
    }

    /// Disjunction on the degree channel: the degree is the maximum.  The
    /// truth flag is the conjunction of the flags — deliberately the same
    /// formula as in `and`, so `or` and `and` differ only in the degree.
    pub fn or(&self, b: FuzzyBool) -> (r: FuzzyBool)
        requires
            self.wf(),
            b.wf(),
        ensures
            r.wf(),
            r.is_true == (self.is_true && b.is_true),
            r.value@ == q_max(self.value@, b.value@),
    {
        FuzzyBool { is_true: self.is_true && b.is_true, value: self.value.max(&b.value) }
    }

    /// Negation of the degree only: the flag is kept, the degree becomes
    /// its complement `1 - value`.
    pub fn not(&self) -> (r: FuzzyBool)
        requires
            self.wf(),
        ensures
            r.wf(),
            r.is_true == self.is_true,
            r.value@ == q_compl(self.value@),
    {
        FuzzyBool { is_true: self.is_true, value: self.value.one_minus() }
    }

    /// Rule firing: when `target` owns `set` and the antecedent's flag
    /// holds, assert the label with the antecedent's degree; otherwise the
    /// conclusion is empty.
    pub fn fire(&self, target: &FuzzySets, set: &String) -> (r: FuzzySetResult)
        requires
            self.wf(),
        ensures
            r.wf_result(),
            contains_label(*target, set@) && self.is_true ==> r@ == seq![(set@, self.value@)],
            !(contains_label(*target, set@) && self.is_true) ==> r@ == Seq::<(Seq<char>, Q)>::empty(),
    {
        if target.contains(set) && self.is_true {
            let mut items: Vec<(String, Rat)> = Vec::new();
            items.push((set.clone(), self.value));
            let r = FuzzySetResult { items };
            proof {
                assert(r@ =~= seq![(set@, self.value@)]);
            }
            r
        } else {
            let r = FuzzySetResult { items: Vec::new() };
            proof {
                assert(r@ =~= Seq::<(Seq<char>, Q)>::empty());
            }
            r
        }
    }
}

impl FuzzySetResult {
    /// Every degree carried by the result is a well-formed value in `[0, 1]`.
    pub open spec fn wf_result(self) -> bool {
        pairs_wf(self@)
    }

    /// Looks `set` up among the pairs: found exactly once, the lookup is
    /// true with the recorded degree; otherwise (absent, or duplicated by a
    /// configuration error) it is false with degree zero.
    pub fn is(&self, set: &String) -> (r: FuzzyBool)
        requires
            self.wf_result(),
        ensures
            r.wf(),
            r.is_true == (matches_of(self@, set@).len() == 1),
            matches_of(self@, set@).len() == 1 ==> r.value@ == matches_of(self@, set@)[0],
            matches_of(self@, set@).len() != 1 ==> r.value@ == q_zero(),
    {
        let mut count: usize = 0;
        let mut deg: Rat = Rat::zero();
        let mut i: usize = 0;
        while i < self.items.len()
            invariant
                0 <= i <= self.items@.len(),
                count <= i,
                self.wf_result(),
                count == matches_of(self@.take(i as int), set@).len(),
                count > 0 ==> deg.wf() && q_in_unit(deg@) && deg@ == matches_of(
                    self@.take(i as int),
                    set@,
                ).last(),
            decreases self.items@.len() - i,
        {
            proof {
                assert(self@.take(i as int + 1) =~= self@.take(i as int).push(self@[i as int]));
                lemma_matches_of_push(self@.take(i as int), set@, self@[i as int]);
            }
            if self.items[i].0 == *set {
                deg = self.items[i].1;
                count = count + 1;
            }
            i = i + 1;
        }
        proof {
            assert(self@.take(self.items@.len() as int) =~= self@);
        }
        if count == 1 {
            FuzzyBool { is_true: true, value: deg }
        } else {
            FuzzyBool { is_true: false, value: Rat::zero() }
        }
    }
}

/// The degrees that `and` and `or` compute are commutative: the minimum and
/// the maximum of two values do not depend on the operand order.
pub proof fn lemma_and_or_value_commutative(a: Q, b: Q)
    requires
        q_wf(a),
        q_wf(b),
    ensures
        q_eq(q_min(a, b), q_min(b, a)),
        q_eq(q_max(a, b), q_max(b, a)),
{
}

/// Double negation is the identity on the degree channel: complementing a
/// degree twice gives back exactly the degree `not` started from.
pub proof fn lemma_double_negation(v: Q)
    ensures
        q_compl(q_compl(v)) == v,
{
}

} // verus!
