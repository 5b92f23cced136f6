//! Add-alpha smoothing in exact arithmetic.
//!
//! With a smoothing scale `a`, a counter of total `n` with `v` keys gives a
//! key counted `c` times the probability `(c + a) / (n + a (v + 1))`, and
//! every key that was never counted the probability `a / (n + a (v + 1))`.
//! The scale is a fraction, so each probability is a fraction too: a mass
//! over the whole. The logarithm of a probability is not taken here.

use vstd::prelude::*;
use crate::utils::assoc::{has_key, index_of_key};
use crate::utils::counter::{count_of, total_of, StringCounter};

verus! {

/// A smoothing scale: a positive fraction.
#[derive(Debug, Clone, Copy, PartialEq, Eq, Structural)]
pub struct Scale {
    /// The numerator of the fraction.
    pub numerator: u128,
    /// The denominator of the fraction.
    pub denominator: u128,
}

/// The numerator of the default smoothing scale, one part in a hundred thousand.
pub const ALPHA_NUMERATOR: u128 = 1;

/// The denominator of the default smoothing scale.
pub const ALPHA_DENOMINATOR: u128 = 100000;

/// The scale is positive.
pub open spec fn is_scale(a: Scale) -> bool {
    a.numerator >= 1 && a.denominator >= 1
}

/// The mass of a key that was counted `count` times.
pub open spec fn mass_of(count: nat, a: Scale) -> int {
    count * a.denominator + a.numerator
}

/// The whole that the masses of a counter are parts of.
pub open spec fn whole_of(m: Seq<(Seq<char>, nat)>, a: Scale) -> int {
    total_of(m) * a.denominator + a.numerator * (m.len() + 1)
}

/// The mass of each key of a counter, in the counter's order.
pub open spec fn masses_of(m: Seq<(Seq<char>, nat)>, a: Scale) -> Seq<int> {
    Seq::new(m.len(), |i: int| mass_of(m[i].1, a))
}

/// The sum of a sequence of numbers.
pub open spec fn sum_of(s: Seq<int>) -> int
    decreases s.len(),
{
    if s.len() == 0 {
        0
    } else {
        sum_of(s.drop_last()) + s.last()
    }
}

/// Numbers of a machine as numbers.
pub open spec fn numbers(v: Seq<u128>) -> Seq<int> {
    Seq::new(v.len(), |i: int| v[i] as int)
}

/// The scale of a tag: the base scale times the probability that the base
/// scale gives the tag among the hapax counts, as a fraction that is not
/// reduced.
pub open spec fn tag_scale_of(hapax: Seq<(Seq<char>, nat)>, tag: Seq<char>, base: Scale) -> (
    int,
    int,
) {
    (
        base.numerator * mass_of(count_of(hapax, tag), base),
        base.denominator * whole_of(hapax, base),
    )
}

/// Smoothing conserves the mass: the masses of all keys and the mass of
/// an unseen key add up to the whole, so the probabilities add up to one.
pub proof fn lemma_mass_is_conserved(m: Seq<(Seq<char>, nat)>, a: Scale)
    ensures
        sum_of(masses_of(m, a)) + a.numerator == whole_of(m, a),
    decreases m.len(),
{
    if m.len() > 0 {
        let rest = m.drop_last();
        lemma_mass_is_conserved(rest, a);
        assert(masses_of(m, a).drop_last() == masses_of(rest, a));
        assert(masses_of(m, a).last() == mass_of(m.last().1, a));
        let t = total_of(rest) as int;
        let c = m.last().1 as int;
        let d = a.denominator as int;
        let n = a.numerator as int;
        let v = rest.len() as int;
        assert(total_of(m) == t + c);
        assert(m.len() + 1 == v + 2);
        assert((t + c) * d == t * d + c * d) by (nonlinear_arith);
        assert(n * (v + 2) == n * (v + 1) + n) by (nonlinear_arith);
        assert(whole_of(rest, a) == t * d + n * (v + 1));
        assert(whole_of(m, a) == (t + c) * d + n * (v + 2));
        assert(mass_of(m.last().1, a) == c * d + n);
    } else {
        let n = a.numerator as int;
        assert(n * 1 == n) by (nonlinear_arith);
        assert(total_of(m) * a.denominator == 0) by (nonlinear_arith)
            requires
                total_of(m) == 0,
        ;
        assert(whole_of(m, a) == 0 + n * 1);
    }
}

/// No count of a counter is above its total.
pub proof fn lemma_count_within_total(m: Seq<(Seq<char>, nat)>, i: int)
    requires
        0 <= i < m.len(),
    ensures
        m[i].1 <= total_of(m),
    decreases m.len(),
{
    if i < m.len() - 1 {
        lemma_count_within_total(m.drop_last(), i);
    }
}

/// No mass of a counter is above the whole.
pub proof fn lemma_mass_within_whole(m: Seq<(Seq<char>, nat)>, a: Scale, count: nat)
    requires
        count <= total_of(m),
    ensures
        mass_of(count, a) <= whole_of(m, a),
{
    let d = a.denominator as nat;
    let n = a.numerator as nat;
    let t = total_of(m);
    let v = m.len();
    assert(count * d <= t * d) by (nonlinear_arith)
        requires
            count <= t,
    ;
    assert(n <= n * (v + 1)) by (nonlinear_arith);
}

/// The count of any key of a counter is within its total.
pub proof fn lemma_key_count_within_total(m: Seq<(Seq<char>, nat)>, key: Seq<char>)
    ensures
        count_of(m, key) <= total_of(m),
{
    if has_key(m, key) {
        lemma_count_within_total(m, index_of_key(m, key));
    }
}

/// The masses of a counter under a scale.
#[derive(Debug)]
pub struct Masses {
    /// The mass of each key, in the counter's order.
    pub keys: Vec<u128>,
    /// The mass of every key that was never counted.
    pub unseen: u128,
    /// The whole that the masses are parts of.
    pub whole: u128,
}

/// The default smoothing scale.
pub fn default_scale() -> (r: Scale)
    ensures
        is_scale(r),
        r.numerator == ALPHA_NUMERATOR,
        r.denominator == ALPHA_DENOMINATOR,
{
    Scale { numerator: ALPHA_NUMERATOR, denominator: ALPHA_DENOMINATOR }
}

/// The whole of a counter under a scale, where it fits the machine.
fn whole(counter: &StringCounter, scale: Scale) -> (r: Option<u128>)
    requires
        counter.wf(),
    ensures
        r is Some <==> whole_of(counter@, scale) <= u128::MAX,
        r is Some ==> r->0 == whole_of(counter@, scale),
{
    let n: u128 = counter.total();
    let v: u128 = counter.len() as u128;
    proof {
        let t = total_of(counter@);
        let d = scale.denominator as nat;
        let a = scale.numerator as nat;
        assert(t * d >= 0 && a * (v + 1) >= 0) by (nonlinear_arith);
    }
    match n.checked_mul(scale.denominator) {
        None => None,
        Some(counted) => match scale.numerator.checked_mul(v + 1) {
            None => None,
            Some(added) => counted.checked_add(added),
        },
    }
}

/// Smooths a counter under a scale: the mass of each key, the mass of an
/// unseen key, and the whole.
///
/// Returns `None` where the scale is not positive or the whole does not
/// fit the machine.
pub fn smoothing_masses(counter: &StringCounter, scale: Scale) -> (r: Option<Masses>)
    requires
        counter.wf(),
    ensures
        r is Some <==> is_scale(scale) && whole_of(counter@, scale) <= u128::MAX,
        match r {
            Some(masses) => numbers(masses.keys@) == masses_of(counter@, scale) && masses.unseen
                == scale.numerator && masses.whole == whole_of(counter@, scale),
            None => true,
        },
{
    if scale.numerator < 1 || scale.denominator < 1 {
        return None;
    }
    let total = match whole(counter, scale) {
        Some(w) => w,
        None => {
            return None;
        },
    };
    let mut keys: Vec<u128> = Vec::new();
    let mut i: usize = 0;
    while i < counter.len()
        invariant
            i <= counter@.len(),
            counter.wf(),
            total == whole_of(counter@, scale),
            keys@.len() == i,
            forall|j: int| 0 <= j < i ==> (#[trigger] keys@[j]) == mass_of(counter@[j].1, scale),
        decreases counter@.len() - i,
    {
        proof {
            lemma_count_within_total(counter@, i as int);
            lemma_mass_within_whole(counter@, scale, counter@[i as int].1);
            let c = counter@[i as int].1;
            let d = scale.denominator as nat;
            assert(c * d >= 0) by (nonlinear_arith);
        }
        let count: u128 = counter.count_at(i) as u128;
        keys.push(count * scale.denominator + scale.numerator);
        i += 1;
    }
    assert(numbers(keys@) =~= masses_of(counter@, scale));
    Some(Masses { keys, unseen: scale.numerator, whole: total })
}

/// The smoothing scale of a tag, from the hapax counts and a base scale.
///
/// Returns `None` where the base scale is not positive or the fraction
/// does not fit the machine.
pub fn tag_scale(hapax: &StringCounter, tag: &str, base: Scale) -> (r: Option<Scale>)
    requires
        hapax.wf(),
    ensures
        r is Some <==> is_scale(base) && tag_scale_of(hapax@, tag@, base).0 <= u128::MAX
            && tag_scale_of(hapax@, tag@, base).1 <= u128::MAX,
        match r {
            Some(scale) => is_scale(scale) && scale.numerator == tag_scale_of(hapax@, tag@, base).0
                && scale.denominator == tag_scale_of(hapax@, tag@, base).1,
            None => true,
        },
{
    if base.numerator < 1 || base.denominator < 1 {
        return None;
    }
    proof {
        let w = whole_of(hapax@, base);
        let d = base.denominator as nat;
        let a = base.numerator as nat;
        let m = mass_of(count_of(hapax@, tag@), base);
        lemma_key_count_within_total(hapax@, tag@);
        lemma_mass_within_whole(hapax@, base, count_of(hapax@, tag@));
        assert(d * w >= w) by (nonlinear_arith)
            requires
                d >= 1,
                w >= 0,
        ;
        assert(a * (hapax@.len() + 1) >= 1) by (nonlinear_arith)
            requires
                a >= 1,
        ;
        assert(total_of(hapax@) * d >= 0) by (nonlinear_arith);
        assert(a * m >= 1) by (nonlinear_arith)
            requires
                a >= 1,
                m >= 1,
        ;
        assert(d * w >= 1) by (nonlinear_arith)
            requires
                d >= 1,
                w >= 1,
        ;
        assert(count_of(hapax@, tag@) * d >= 0) by (nonlinear_arith);
    }
    let total = match whole(hapax, base) {
        Some(w) => w,
        None => {
            return None;
        },
    };
    let count: u128 = hapax.get(tag) as u128;
    let mass: u128 = count * base.denominator + base.numerator;
    match base.numerator.checked_mul(mass) {
        None => None,
        Some(numerator) => match base.denominator.checked_mul(total) {
            None => None,
            Some(denominator) => Some(Scale { numerator, denominator }),
        },
    }
}

} // verus!
