use vstd::prelude::*;
use crate::bignum::{big_value, big_from_u64, big_add, big_mul, big_eq, big_clone};

verus! {

// An exact rational number, held as a numerator/denominator pair of
// arbitrary-precision integers. Pairs are not reduced; equality of values
// is equality of cross products. The spec-level model of a rational is the
// pair of integers `(numerator, denominator)`.

/// A pair models a well-formed rational when its denominator is positive.
pub open spec fn rat_wf(a: (int, int)) -> bool {
    a.1 > 0
}

/// The pairs `a` and `b` denote the same rational value.
pub open spec fn rat_eq(a: (int, int), b: (int, int)) -> bool {
    a.0 * b.1 == b.0 * a.1
}

/// Exact sum of two rational pairs.
pub open spec fn rat_add(a: (int, int), b: (int, int)) -> (int, int) {
    (a.0 * b.1 + b.0 * a.1, a.1 * b.1)
}

/// Exact product of two rational pairs.
pub open spec fn rat_mul(a: (int, int), b: (int, int)) -> (int, int) {
    (a.0 * b.0, a.1 * b.1)
}

/// Exact power of a rational pair by a non-negative exponent.
pub open spec fn rat_pow(a: (int, int), e: nat) -> (int, int)
    decreases e,
{
    if e == 0 {
        (1, 1)
    } else {
        rat_mul(rat_pow(a, (e - 1) as nat), a)
    }
}

/// Exact sum of a sequence of rational pairs; the empty sum is zero.
pub open spec fn rat_sum(s: Seq<(int, int)>) -> (int, int)
    decreases s.len(),
{
    if s.len() == 0 {
        (0, 1)
    } else {
        rat_add(rat_sum(s.drop_last()), s.last())
    }
}

/// Every element of `s` multiplied by `c`.
pub open spec fn rat_scale(s: Seq<(int, int)>, c: (int, int)) -> Seq<(int, int)> {
    s.map(|i: int, x: (int, int)| rat_mul(x, c))
}

/// The normalized probabilities derived from a sequence of weights:
/// each weight divided by the sum of all weights.
pub open spec fn probabilities_of(ws: Seq<(int, int)>) -> Seq<(int, int)> {
    rat_scale(ws, (rat_sum(ws).1, rat_sum(ws).0))
}

/// An exact rational number backed by arbitrary-precision integers.
#[derive(Debug)]
pub struct Rational {
    num: num::BigInt,
    den: num::BigInt,
}

impl View for Rational {
    type V = (int, int);

    closed spec fn view(&self) -> (int, int) {
        (big_value(self.num), big_value(self.den))
    }
}

impl Rational {
    /// A `Rational` is well formed when its denominator is positive.
    pub open spec fn wf(&self) -> bool {
        rat_wf(self@)
    }

    /// The integer `x` as a rational.
    pub fn from_u64(x: u64) -> (r: Rational)
        ensures
            r@ == (x as int, 1int),
            r.wf(),
    {
        Rational { num: big_from_u64(x), den: big_from_u64(1) }
    }

    /// The rational `numerator / denominator`.
    pub fn new(numerator: u64, denominator: u64) -> (r: Rational)
        requires
            denominator >= 1,
        ensures
            r@ == (numerator as int, denominator as int),
            r.wf(),
    {
        Rational { num: big_from_u64(numerator), den: big_from_u64(denominator) }
    }

    /// A copy holding the same value.
    pub fn duplicate(&self) -> (r: Rational)
        ensures
            r@ == self@,
    {
        Rational { num: big_clone(&self.num), den: big_clone(&self.den) }
    }

    /// Exact addition.
    pub fn add(&self, other: &Rational) -> (r: Rational)
        requires
            self.wf(),
            other.wf(),
        ensures
            r@ == rat_add(self@, other@),
            r.wf(),
    {
        let n1 = big_mul(&self.num, &other.den);
        let n2 = big_mul(&other.num, &self.den);
        let r = Rational { num: big_add(&n1, &n2), den: big_mul(&self.den, &other.den) };
        proof {
            lemma_pos_mul(self@.1, other@.1);
        }
        r
    }

    /// Exact multiplication.
    pub fn mul(&self, other: &Rational) -> (r: Rational)
        requires
            self.wf(),
            other.wf(),
        ensures
            r@ == rat_mul(self@, other@),
            r.wf(),
    {
        let r = Rational { num: big_mul(&self.num, &other.num), den: big_mul(&self.den, &other.den) };
        proof {
            lemma_pos_mul(self@.1, other@.1);
        }
        r
    }

    /// Exact division by a rational with a positive numerator.
    pub fn div(&self, other: &Rational) -> (r: Rational)
        requires
            self.wf(),
            other.wf(),
            other@.0 > 0,
        ensures
            r@ == (self@.0 * other@.1, self@.1 * other@.0),
            r.wf(),
    {
        let r = Rational { num: big_mul(&self.num, &other.den), den: big_mul(&self.den, &other.num) };
        proof {
            lemma_pos_mul(self@.1, other@.0);
        }
        r
    }

    /// Exact power by a non-negative exponent.
    pub fn pow_u(&self, e: usize) -> (r: Rational)
        requires
            self.wf(),
        ensures
            r@ == rat_pow(self@, e as nat),
            r.wf(),
    {
        let mut acc = Rational::from_u64(1);
        let mut j: usize = 0;
        while j < e
            invariant
                j <= e,
                acc@ == rat_pow(self@, j as nat),
                acc.wf(),
                self.wf(),
            decreases e - j,
        {
            acc = acc.mul(self);
            j = j + 1;
        }
        acc
    }

    /// Decides whether two rationals hold the same value (cross products).
    pub fn eq_value(&self, other: &Rational) -> (r: bool)
        ensures
            r == rat_eq(self@, other@),
    {
        let a = big_mul(&self.num, &other.den);
        let b = big_mul(&other.num, &self.den);
        big_eq(&a, &b)
    }

    /// Decides whether the numerator is zero (for a well-formed rational,
    /// whether the value is zero).
    pub fn is_zero(&self) -> (r: bool)
        ensures
            r == (self@.0 == 0),
    {
        let zero = big_from_u64(0);
        big_eq(&self.num, &zero)
    }

    /// The numerator, as an arbitrary-precision integer.
    pub fn numerator(&self) -> (r: num::BigInt)
        ensures
            big_value(r) == self@.0,
    {
        big_clone(&self.num)
    }

    /// The denominator, as an arbitrary-precision integer.
    pub fn denominator(&self) -> (r: num::BigInt)
        ensures
            big_value(r) == self@.1,
    {
        big_clone(&self.den)
    }
}

/// The product of two positive integers is positive.
pub proof fn lemma_pos_mul(a: int, b: int)
    by (nonlinear_arith)
    requires
        a > 0,
        b > 0,
    ensures
        a * b > 0,
{
}

/// Denoting the same value is transitive across a pair whose denominator
/// is not zero.
pub proof fn lemma_rat_eq_trans(a: (int, int), b: (int, int), c: (int, int))
    by (nonlinear_arith)
    requires
        rat_eq(a, b),
        rat_eq(b, c),
        b.1 != 0,
    ensures
        rat_eq(a, c),
{
}

/// Replacing one addend by an equal-valued pair keeps the value of a sum.
pub proof fn lemma_rat_add_congruence(a: (int, int), a2: (int, int), b: (int, int))
    requires
        rat_eq(a, a2),
    ensures
        rat_eq(rat_add(a, b), rat_add(a2, b)),
{
    let (x0, x1, y0, y1, b0, b1) = (a.0, a.1, a2.0, a2.1, b.0, b.1);
    assert((x0 * b1 + b0 * x1) * (y1 * b1) == (y0 * b1 + b0 * y1) * (x1 * b1))
        by (nonlinear_arith)
        requires
            x0 * y1 == y0 * x1,
    ;
}

/// Multiplication distributes over addition, up to value equality.
#[verifier::rlimit(100)]
pub proof fn lemma_rat_mul_distributes(a: (int, int), b: (int, int), c: (int, int))
    ensures
        rat_eq(rat_add(rat_mul(a, c), rat_mul(b, c)), rat_mul(rat_add(a, b), c)),
{
    let (a0, a1, b0, b1, c0, c1) = (a.0, a.1, b.0, b.1, c.0, c.1);
    assert(a0 * c0 * (b1 * c1) == a0 * b1 * (c0 * c1)) by (nonlinear_arith);
    assert(b0 * c0 * (a1 * c1) == b0 * a1 * (c0 * c1)) by (nonlinear_arith);
    assert(a0 * b1 * (c0 * c1) + b0 * a1 * (c0 * c1) == (a0 * b1 + b0 * a1) * (c0 * c1))
        by (nonlinear_arith);
    lemma_product_reassociates(a0 * b1 + b0 * a1, c0, c1, a1, b1);
}

/// Reassociating a five-factor product.
proof fn lemma_product_reassociates(s: int, c0: int, c1: int, a1: int, b1: int)
    by (nonlinear_arith)
    ensures
        s * (c0 * c1) * (a1 * b1 * c1) == s * c0 * (a1 * c1 * (b1 * c1)),
{
}

/// The sum of a sequence of well-formed pairs has a positive denominator.
pub proof fn lemma_rat_sum_den_pos(s: Seq<(int, int)>)
    requires
        forall|i: int| 0 <= i < s.len() ==> (#[trigger] s[i]).1 > 0,
    ensures
        rat_sum(s).1 > 0,
    decreases s.len(),
{
    if s.len() > 0 {
        lemma_rat_sum_den_pos(s.drop_last());
        lemma_pos_mul(rat_sum(s.drop_last()).1, s.last().1);
    }
}

/// The sum of well-formed pairs with non-negative numerators has a
/// non-negative numerator.
pub proof fn lemma_rat_sum_num_nonneg(s: Seq<(int, int)>)
    requires
        forall|i: int| 0 <= i < s.len() ==> (#[trigger] s[i]).1 > 0 && (#[trigger] s[i]).0 >= 0,
    ensures
        rat_sum(s).0 >= 0,
    decreases s.len(),
{
    if s.len() > 0 {
        let t = s.drop_last();
        lemma_rat_sum_num_nonneg(t);
        lemma_rat_sum_den_pos(t);
        let a = rat_sum(t);
        let b = s.last();
        assert(a.0 * b.1 + b.0 * a.1 >= 0) by (nonlinear_arith)
            requires
                a.0 >= 0,
                a.1 > 0,
                b.0 >= 0,
                b.1 > 0,
        ;
    }
}

/// If every weight's numerator is zero, the numerator of the sum is zero.
pub proof fn lemma_zero_weights_zero_sum(s: Seq<(int, int)>)
    requires
        forall|i: int| 0 <= i < s.len() ==> (#[trigger] s[i]).0 == 0,
    ensures
        rat_sum(s).0 == 0,
    decreases s.len(),
{
    if s.len() > 0 {
        lemma_zero_weights_zero_sum(s.drop_last());
        let a = rat_sum(s.drop_last());
        let b = s.last();
        assert(a.0 * b.1 + b.0 * a.1 == 0) by (nonlinear_arith)
            requires
                a.0 == 0,
                b.0 == 0,
        ;
    }
}

/// Summing a sequence scaled by `c` gives the scaled sum, up to value
/// equality.
pub proof fn lemma_rat_sum_scaled(s: Seq<(int, int)>, c: (int, int))
    requires
        forall|i: int| 0 <= i < s.len() ==> (#[trigger] s[i]).1 > 0,
        c.1 != 0,
    ensures
        rat_eq(rat_sum(rat_scale(s, c)), rat_mul(rat_sum(s), c)),
    decreases s.len(),
{
    if s.len() == 0 {
        assert(rat_scale(s, c).len() == 0);
        assert(rat_sum(rat_scale(s, c)) == (0int, 1int));
        assert(rat_eq((0int, 1int), rat_mul((0int, 1int), c))) by (nonlinear_arith);
        assert(rat_sum(s) == (0int, 1int));
    } else {
        let t = s.drop_last();
        let x = s.last();
        lemma_rat_sum_scaled(t, c);
        assert(rat_scale(s, c).drop_last() =~= rat_scale(t, c));
        assert(rat_scale(s, c).last() == rat_mul(x, c));
        let st = rat_sum(t);
        let sc = rat_sum(rat_scale(t, c));
        lemma_rat_sum_den_pos(t);
        assert(rat_sum(rat_scale(s, c)) == rat_add(sc, rat_mul(x, c)));
        lemma_rat_add_congruence(sc, rat_mul(st, c), rat_mul(x, c));
        lemma_rat_mul_distributes(st, x, c);
        let mid = rat_add(rat_mul(st, c), rat_mul(x, c));
        assert(mid.1 != 0) by (nonlinear_arith)
            requires
                st.1 > 0,
                x.1 > 0,
                c.1 != 0,
                mid.1 == (st.1 * c.1) * (x.1 * c.1),
        ;
        lemma_rat_eq_trans(rat_sum(rat_scale(s, c)), mid, rat_mul(rat_sum(s), c));
    }
}

/// Powers of a pair that denotes one denote one.
pub proof fn lemma_rat_pow_one(e: (int, int), n: nat)
    requires
        rat_eq(e, (1int, 1int)),
    ensures
        rat_eq(rat_pow(e, n), (1int, 1int)),
    decreases n,
{
    if n > 0 {
        lemma_rat_pow_one(e, (n - 1) as nat);
        let p = rat_pow(e, (n - 1) as nat);
        assert(p.0 * e.0 * 1 == 1 * (p.1 * e.1)) by (nonlinear_arith)
            requires
                p.0 == p.1,
                e.0 == e.1,
        ;
    }
}

/// The normalized probabilities of any weight sequence with a nonzero
/// total weight sum to exactly one (as rational values).
pub proof fn lemma_probabilities_sum_to_one(ws: Seq<(int, int)>)
    requires
        forall|i: int| 0 <= i < ws.len() ==> (#[trigger] ws[i]).1 > 0,
        rat_sum(ws).0 != 0,
    ensures
        rat_eq(rat_sum(probabilities_of(ws)), (1int, 1int)),
{
    let w = rat_sum(ws);
    let c = (w.1, w.0);
    lemma_rat_sum_den_pos(ws);
    lemma_rat_sum_scaled(ws, c);
    let scaled = rat_mul(w, c);
    assert(rat_eq(scaled, (1int, 1int))) by (nonlinear_arith)
        requires
            scaled == (w.0 * w.1, w.1 * w.0),
    ;
    assert(scaled.1 != 0) by (nonlinear_arith)
        requires
            w.0 != 0,
            w.1 > 0,
            scaled.1 == w.1 * w.0,
    ;
    lemma_rat_eq_trans(rat_sum(probabilities_of(ws)), scaled, (1int, 1int));
}

} // verus!
