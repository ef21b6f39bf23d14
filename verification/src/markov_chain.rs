use vstd::prelude::*;
use vstd::pervasive::VecAdditionalExecFns;
use crate::rational::{
    Rational, rat_wf, rat_eq, rat_add, rat_mul, rat_pow, rat_sum, probabilities_of,
    lemma_rat_sum_num_nonneg, lemma_rat_pow_one,
};

verus! {

// Enumeration of pack compositions and the exact multinomial distribution
// of a single weighted draw.

/// Sum of the parts of a composition.
pub open spec fn sum_parts(s: Seq<usize>) -> int
    decreases s.len(),
{
    if s.len() == 0 {
        0
    } else {
        sum_parts(s.drop_last()) + s.last()
    }
}

/// The base in which compositions are ranked positionally: one more than
/// the pack size, so that every part is a valid digit.
pub open spec fn rank_base(group: usize) -> int {
    group as int + 1
}

/// Integer power.
pub open spec fn pow_int(b: int, e: nat) -> int
    decreases e,
{
    if e == 0 {
        1
    } else {
        b * pow_int(b, (e - 1) as nat)
    }
}

/// The positional value of a composition read as base-`b` digits, least
/// significant part first.
pub open spec fn pos_value(s: Seq<usize>, b: int) -> int
    decreases s.len(),
{
    if s.len() == 0 {
        0
    } else {
        s.first() + b * pos_value(s.drop_first(), b)
    }
}

/// The rank of a composition in the enumeration order: its positional
/// value in base pack-size-plus-one. The rank strictly increases from
/// each enumerated composition to the next.
pub open spec fn composition_rank(s: Seq<usize>, group: usize) -> int {
    pos_value(s, rank_base(group))
}

/// Factorial.
pub open spec fn fact(n: nat) -> int
    decreases n,
{
    if n == 0 {
        1
    } else {
        n * fact((n - 1) as nat)
    }
}

/// Product of the factorials of the parts.
pub open spec fn prod_fact(s: Seq<usize>) -> int
    decreases s.len(),
{
    if s.len() == 0 {
        1
    } else {
        prod_fact(s.drop_last()) * fact(s.last() as nat)
    }
}

/// The multinomial frequency of a composition of `g`, as an exact rational
/// pair: `g!` over the product of the factorials of the parts.
pub open spec fn frequency_spec(g: nat, parts: Seq<usize>) -> (int, int) {
    (fact(g), prod_fact(parts))
}

/// The product over all kinds of the kind's probability raised to the
/// kind's part.
pub open spec fn pow_product(ps: Seq<(int, int)>, parts: Seq<usize>) -> (int, int)
    decreases parts.len(),
{
    if parts.len() == 0 || ps.len() == 0 {
        (1, 1)
    } else {
        rat_mul(
            pow_product(ps.drop_last(), parts.drop_last()),
            rat_pow(ps.last(), parts.last() as nat),
        )
    }
}

/// The exact probability that one pack drawn from weights `ws` has the
/// composition `parts`: multinomial frequency times the product of the
/// per-kind probabilities raised to the parts.
pub open spec fn transition_probability_spec(ws: Seq<(int, int)>, g: nat, parts: Seq<usize>) -> (
    int,
    int,
) {
    rat_mul(frequency_spec(g, parts), pow_product(probabilities_of(ws), parts))
}

/// The first composition of the enumeration: everything on the first kind.
pub open spec fn init_composition(kinds: nat, group: usize) -> Seq<usize> {
    Seq::new(kinds, |i: int| if i == 0 { group } else { 0usize })
}

/// The sum of the parts is never negative.
pub proof fn lemma_sum_nonneg(s: Seq<usize>)
    ensures
        sum_parts(s) >= 0,
    decreases s.len(),
{
    if s.len() > 0 {
        lemma_sum_nonneg(s.drop_last());
    }
}

/// Every part is at most the sum of the parts.
pub proof fn lemma_sum_element_bound(s: Seq<usize>, k: int)
    requires
        0 <= k < s.len(),
    ensures
        s[k] <= sum_parts(s),
    decreases s.len(),
{
    lemma_sum_nonneg(s.drop_last());
    if k < s.len() - 1 {
        lemma_sum_element_bound(s.drop_last(), k);
    }
}

/// Updating one part changes the sum by the difference.
pub proof fn lemma_sum_update(s: Seq<usize>, k: int, v: usize)
    requires
        0 <= k < s.len(),
    ensures
        sum_parts(s.update(k, v)) == sum_parts(s) - s[k] + v,
    decreases s.len(),
{
    if k == s.len() - 1 {
        assert(s.update(k, v).drop_last() =~= s.drop_last());
    } else {
        assert(s.update(k, v).drop_last() =~= s.drop_last().update(k, v));
        lemma_sum_update(s.drop_last(), k, v);
    }
}

/// Two distinct parts together are at most the sum of the parts.
pub proof fn lemma_sum_pair_bound(s: Seq<usize>, i: int, j: int)
    requires
        0 <= i < s.len(),
        0 <= j < s.len(),
        i != j,
    ensures
        s[i] + s[j] <= sum_parts(s),
{
    let t = s.update(i, 0usize);
    lemma_sum_update(s, i, 0usize);
    lemma_sum_element_bound(t, j);
}

/// Extending a prefix by one element adds that element to the prefix sum.
pub proof fn lemma_sum_take_step(s: Seq<usize>, m: int)
    requires
        0 <= m < s.len(),
    ensures
        sum_parts(s.take(m + 1)) == sum_parts(s.take(m)) + s[m],
{
    assert(s.take(m + 1).drop_last() =~= s.take(m));
    assert(s.take(m + 1).last() == s[m]);
}

/// A prefix sum is at most the full sum.
pub proof fn lemma_sum_take_le(s: Seq<usize>, m: int)
    requires
        0 <= m <= s.len(),
    ensures
        sum_parts(s.take(m)) <= sum_parts(s),
    decreases s.len() - m,
{
    if m == s.len() {
        assert(s.take(m) =~= s);
    } else {
        lemma_sum_take_step(s, m);
        lemma_sum_take_le(s, m + 1);
    }
}

/// Powers of positive bases are positive.
pub proof fn lemma_pow_int_pos(b: int, e: nat)
    requires
        b >= 1,
    ensures
        pow_int(b, e) >= 1,
    decreases e,
{
    if e > 0 {
        lemma_pow_int_pos(b, (e - 1) as nat);
        assert(b * pow_int(b, (e - 1) as nat) >= 1) by (nonlinear_arith)
            requires
                b >= 1,
                pow_int(b, (e - 1) as nat) >= 1,
        ;
    }
}

/// Positional values are non-negative.
pub proof fn lemma_pos_value_nonneg(s: Seq<usize>, b: int)
    requires
        b >= 1,
    ensures
        pos_value(s, b) >= 0,
    decreases s.len(),
{
    if s.len() > 0 {
        lemma_pos_value_nonneg(s.drop_first(), b);
        assert(b * pos_value(s.drop_first(), b) >= 0) by (nonlinear_arith)
            requires
                b >= 1,
                pos_value(s.drop_first(), b) >= 0,
        ;
    }
}

/// A composition whose parts are all below the base has a positional
/// value below the base raised to the length.
pub proof fn lemma_pos_value_bound(s: Seq<usize>, b: int)
    requires
        b >= 1,
        forall|j: int| 0 <= j < s.len() ==> s[j] < b,
    ensures
        pos_value(s, b) < pow_int(b, s.len() as nat),
    decreases s.len(),
{
    if s.len() > 0 {
        let t = s.drop_first();
        assert(forall|j: int| 0 <= j < t.len() ==> t[j] < b);
        lemma_pos_value_bound(t, b);
        assert(pow_int(b, s.len() as nat) == b * pow_int(b, t.len() as nat));
        assert(s.first() + b * pos_value(t, b) < b * pow_int(b, t.len() as nat))
            by (nonlinear_arith)
            requires
                s.first() < b,
                s.first() >= 0,
                pos_value(t, b) < pow_int(b, t.len() as nat),
                b >= 1,
        ;
    }
}

/// Updating one part changes the positional value by the difference times
/// the base raised to the position.
pub proof fn lemma_pos_value_update(s: Seq<usize>, b: int, k: int, v: usize)
    requires
        0 <= k < s.len(),
    ensures
        pos_value(s.update(k, v), b) == pos_value(s, b) + (v - s[k]) * pow_int(b, k as nat),
    decreases s.len(),
{
    let u = s.update(k, v);
    if k == 0 {
        assert(u.drop_first() =~= s.drop_first());
        assert(pow_int(b, 0nat) == 1);
        assert((v - s[0]) * 1 == v - s[0]) by (nonlinear_arith);
    } else {
        let t = s.drop_first();
        assert(u.drop_first() =~= t.update(k - 1, v));
        lemma_pos_value_update(t, b, k - 1, v);
        assert(t[k - 1] == s[k]);
        let d = v - s[k];
        let q = pow_int(b, (k - 1) as nat);
        assert(b * (pos_value(t, b) + d * q) == b * pos_value(t, b) + d * (b * q))
            by (nonlinear_arith);
        assert(pow_int(b, k as nat) == b * q);
    }
}

/// Every part of a composition that sums to the pack size is a valid
/// digit in the ranking base.
pub proof fn lemma_parts_below_base(s: Seq<usize>, group: usize)
    requires
        sum_parts(s) == group as int,
    ensures
        forall|j: int| 0 <= j < s.len() ==> s[j] < rank_base(group),
{
    assert forall|j: int| 0 <= j < s.len() implies s[j] < rank_base(group) by {
        lemma_sum_element_bound(s, j);
    }
}

/// The sum of the parts of the initial composition is the pack size.
pub proof fn lemma_sum_init(kinds: nat, group: usize)
    requires
        kinds >= 1,
    ensures
        sum_parts(init_composition(kinds, group)) == group as int,
    decreases kinds,
{
    let s = init_composition(kinds, group);
    if kinds == 1 {
        assert(s.last() == group);
        assert(s.drop_last() =~= Seq::<usize>::empty());
        assert(sum_parts(s.drop_last()) == 0);
        assert(sum_parts(s) == 0 + group as int);
    } else {
        assert(s.drop_last() =~= init_composition((kinds - 1) as nat, group));
        assert(s.last() == 0usize);
        lemma_sum_init((kinds - 1) as nat, group);
        assert(sum_parts(s) == sum_parts(s.drop_last()) + 0);
    }
}

/// Splitting off the first part splits the sum.
pub proof fn lemma_sum_first(s: Seq<usize>)
    requires
        s.len() >= 1,
    ensures
        sum_parts(s) == s.first() + sum_parts(s.drop_first()),
    decreases s.len(),
{
    if s.len() == 1 {
        assert(s.drop_first() =~= Seq::<usize>::empty());
        assert(s.last() == s.first());
        assert(s.drop_last() =~= Seq::<usize>::empty());
    } else {
        let dl = s.drop_last();
        lemma_sum_first(dl);
        assert(dl.first() == s.first());
        assert(s.drop_first().drop_last() =~= dl.drop_first());
        assert(s.drop_first().last() == s.last());
    }
}

/// A composition of all-zero parts sums to zero.
pub proof fn lemma_sum_zero(s: Seq<usize>)
    requires
        forall|j: int| 0 <= j < s.len() ==> s[j] == 0,
    ensures
        sum_parts(s) == 0,
    decreases s.len(),
{
    if s.len() > 0 {
        lemma_sum_zero(s.drop_last());
    }
}

/// The sum splits at any position into prefix and suffix sums.
pub proof fn lemma_sum_split(s: Seq<usize>, m: int)
    requires
        0 <= m <= s.len(),
    ensures
        sum_parts(s) == sum_parts(s.take(m)) + sum_parts(s.skip(m)),
    decreases s.len() - m,
{
    if m == s.len() {
        assert(s.take(m) =~= s);
        assert(s.skip(m) =~= Seq::<usize>::empty());
    } else {
        lemma_sum_take_step(s, m);
        lemma_sum_split(s, m + 1);
        lemma_sum_first(s.skip(m));
        assert(s.skip(m).first() == s[m]);
        assert(s.skip(m).drop_first() =~= s.skip(m + 1));
    }
}

/// The positional value of an all-zero composition is zero.
pub proof fn lemma_pos_value_zero(s: Seq<usize>, b: int)
    requires
        forall|j: int| 0 <= j < s.len() ==> s[j] == 0,
    ensures
        pos_value(s, b) == 0,
    decreases s.len(),
{
    if s.len() > 0 {
        lemma_pos_value_zero(s.drop_first(), b);
    }
}

/// The positional value splits at any position: the prefix's value plus
/// the suffix's value shifted by the base raised to the position.
pub proof fn lemma_pos_value_split(s: Seq<usize>, b: int, m: int)
    requires
        0 <= m <= s.len(),
    ensures
        pos_value(s, b) == pos_value(s.take(m), b) + pow_int(b, m as nat) * pos_value(
            s.skip(m),
            b,
        ),
    decreases m,
{
    if m == 0 {
        assert(s.take(0) =~= Seq::<usize>::empty());
        assert(s.skip(0) =~= s);
        assert((1int) * pos_value(s, b) == pos_value(s, b)) by (nonlinear_arith);
    } else {
        let xt = s.drop_first();
        lemma_pos_value_split(xt, b, m - 1);
        assert(s.take(m).first() == s.first());
        assert(s.take(m).drop_first() =~= xt.take(m - 1));
        assert(s.skip(m) =~= xt.skip(m - 1));
        let pp = pos_value(xt.take(m - 1), b);
        let q = pow_int(b, (m - 1) as nat);
        let rr = pos_value(xt.skip(m - 1), b);
        assert(b * (pp + q * rr) == b * pp + (b * q) * rr) by (nonlinear_arith);
        assert(pow_int(b, m as nat) == b * q);
        assert(pos_value(s.take(m), b) == s.first() + b * pp);
    }
}

/// A positional value is at least the digit sum.
pub proof fn lemma_pos_value_ge_sum(s: Seq<usize>, b: int)
    requires
        b >= 1,
    ensures
        pos_value(s, b) >= sum_parts(s),
    decreases s.len(),
{
    if s.len() > 0 {
        let t = s.drop_first();
        lemma_pos_value_ge_sum(t, b);
        lemma_pos_value_nonneg(t, b);
        lemma_sum_first(s);
        assert(b * pos_value(t, b) >= pos_value(t, b)) by (nonlinear_arith)
            requires
                b >= 1,
                pos_value(t, b) >= 0,
        ;
    }
}

/// A positional value is at most the digit sum times the base raised to
/// the last position.
pub proof fn lemma_pos_value_le_sum_pow(s: Seq<usize>, b: int)
    requires
        b >= 1,
        s.len() >= 1,
    ensures
        pos_value(s, b) <= sum_parts(s) * pow_int(b, (s.len() - 1) as nat),
    decreases s.len(),
{
    lemma_sum_first(s);
    if s.len() == 1 {
        assert(s.drop_first() =~= Seq::<usize>::empty());
        assert(pos_value(Seq::<usize>::empty(), b) == 0);
        assert(b * pos_value(s.drop_first(), b) == 0) by (nonlinear_arith)
            requires
                pos_value(s.drop_first(), b) == 0,
        ;
        assert(pow_int(b, 0nat) == 1);
        assert(sum_parts(s) * 1 == sum_parts(s)) by (nonlinear_arith);
    } else {
        let t = s.drop_first();
        lemma_pos_value_le_sum_pow(t, b);
        lemma_sum_nonneg(t);
        lemma_pow_int_pos(b, (t.len() - 1) as nat);
        let x0 = s.first() as int;
        let st = sum_parts(t);
        let q = pow_int(b, (t.len() - 1) as nat);
        assert(pow_int(b, (s.len() - 1) as nat) == b * q);
        assert(b * pos_value(t, b) <= b * (st * q)) by (nonlinear_arith)
            requires
                pos_value(t, b) <= st * q,
                b >= 1,
        ;
        assert(x0 + b * (st * q) <= (x0 + st) * (b * q)) by (nonlinear_arith)
            requires
                x0 >= 0,
                st >= 0,
                q >= 1,
                b >= 1,
        ;
    }
}

/// Two compositions of the same length whose parts are valid digits and
/// whose positional values agree are the same composition.
pub proof fn lemma_pos_value_injective(x: Seq<usize>, y: Seq<usize>, b: int)
    requires
        x.len() == y.len(),
        forall|j: int| 0 <= j < x.len() ==> x[j] < b,
        forall|j: int| 0 <= j < y.len() ==> y[j] < b,
        pos_value(x, b) == pos_value(y, b),
    ensures
        x == y,
    decreases x.len(),
{
    if x.len() == 0 {
        assert(x =~= y);
    } else {
        let xt = x.drop_first();
        let yt = y.drop_first();
        lemma_pos_value_nonneg(xt, b);
        lemma_pos_value_nonneg(yt, b);
        let px = pos_value(xt, b);
        let py = pos_value(yt, b);
        let x0 = x.first() as int;
        let y0 = y.first() as int;
        assert(px <= py) by (nonlinear_arith)
            requires
                x0 + b * px == y0 + b * py,
                0 <= x0 < b,
                0 <= y0 < b,
        ;
        assert(py <= px) by (nonlinear_arith)
            requires
                x0 + b * px == y0 + b * py,
                0 <= x0 < b,
                0 <= y0 < b,
        ;
        lemma_pos_value_injective(xt, yt, b);
        assert forall|j: int| 0 <= j < x.len() implies x[j] == y[j] by {
            if j > 0 {
                assert(x[j] == xt[j - 1]);
                assert(y[j] == yt[j - 1]);
            }
        }
        assert(x =~= y);
    }
}

/// The carry content of a composition: how far its positional value
/// exceeds its digit sum, in units of base-minus-one.
pub open spec fn pos_excess(s: Seq<usize>, b: int) -> int
    decreases s.len(),
{
    if s.len() == 0 {
        0
    } else {
        pos_value(s.drop_first(), b) + pos_excess(s.drop_first(), b)
    }
}

/// A positional value exceeds the digit sum by a non-negative multiple of
/// base-minus-one.
pub proof fn lemma_pos_excess(s: Seq<usize>, b: int)
    requires
        b >= 1,
    ensures
        pos_value(s, b) == sum_parts(s) + (b - 1) * pos_excess(s, b),
        pos_excess(s, b) >= 0,
    decreases s.len(),
{
    if s.len() == 0 {
        assert((b - 1) * 0 == 0) by (nonlinear_arith);
    } else {
        let t = s.drop_first();
        lemma_pos_excess(t, b);
        lemma_pos_value_nonneg(t, b);
        lemma_sum_first(s);
        let x0 = s.first() as int;
        let pt = pos_value(t, b);
        let st = sum_parts(t);
        let et = pos_excess(t, b);
        assert(x0 + b * pt == (x0 + st) + (b - 1) * (pt + et)) by (nonlinear_arith)
            requires
                pt == st + (b - 1) * et,
        ;
    }
}

/// The rank of the initial composition is the pack size itself, the least
/// rank any composition of that pack size can have.
pub proof fn lemma_init_rank(kinds: nat, group: usize)
    requires
        kinds >= 1,
    ensures
        composition_rank(init_composition(kinds, group), group) == group as int,
{
    let s = init_composition(kinds, group);
    let b = rank_base(group);
    assert(s.first() == group);
    assert(forall|j: int| 0 <= j < s.drop_first().len() ==> #[trigger] s.drop_first()[j] == 0);
    lemma_pos_value_zero(s.drop_first(), b);
    assert(b * pos_value(s.drop_first(), b) == 0) by (nonlinear_arith)
        requires
            pos_value(s.drop_first(), b) == 0,
    ;
}

/// The rank of the terminal composition: the pack size times the base
/// raised to the last slot, the greatest rank of any composition.
pub proof fn lemma_terminal_rank(s: Seq<usize>, group: usize)
    requires
        s.len() >= 1,
        sum_parts(s) == group as int,
        is_terminal(s),
    ensures
        composition_rank(s, group) == group as int * pow_int(
            rank_base(group),
            (s.len() - 1) as nat,
        ),
{
    let b = rank_base(group);
    let m = s.len() - 1;
    lemma_pos_value_split(s, b, m);
    assert(forall|j: int| 0 <= j < s.take(m).len() ==> #[trigger] s.take(m)[j] == 0);
    lemma_pos_value_zero(s.take(m), b);
    lemma_sum_split(s, m);
    lemma_sum_zero(s.take(m));
    let tail = s.skip(m);
    assert(tail.len() == 1);
    assert(tail.first() == s[m]);
    lemma_sum_first(tail);
    assert(tail.drop_first() =~= Seq::<usize>::empty());
    assert(sum_parts(Seq::<usize>::empty()) == 0);
    assert(pos_value(Seq::<usize>::empty(), b) == 0);
    assert(b * pos_value(tail.drop_first(), b) == 0) by (nonlinear_arith)
        requires
            pos_value(tail.drop_first(), b) == 0,
    ;
    assert(pos_value(tail, b) == group as int);
    assert(pow_int(b, m as nat) * pos_value(tail, b) == group as int * pow_int(b, m as nat))
        by (nonlinear_arith)
        requires
            pos_value(tail, b) == group as int,
    ;
}

/// The successor is the next composition in rank order: no composition of
/// the same length and pack size lies strictly between a composition and
/// its successor.
#[verifier::rlimit(100)]
pub proof fn lemma_advance_is_immediate(s: Seq<usize>, t: Seq<usize>, group: usize, i: int)
    requires
        s.len() == t.len(),
        sum_parts(s) == group as int,
        sum_parts(t) == group as int,
        0 <= i < s.len() - 1,
        s[i] > 0,
        forall|j: int| 0 <= j < i ==> s[j] == 0,
        composition_rank(t, group) > composition_rank(s, group),
    ensures
        composition_rank(t, group) >= composition_rank(advance_at(s, i), group),
{
    let b = rank_base(group);
    let g = group as int;
    let v = s[i] as int;
    lemma_parts_below_base(s, group);
    lemma_parts_below_base(t, group);
    lemma_sum_element_bound(s, i);
    lemma_sum_pair_bound(s, i, i + 1);
    let p = pow_int(b, i as nat);
    let bp = pow_int(b, (i + 1) as nat);
    lemma_pow_int_pos(b, i as nat);
    lemma_pow_int_pos(b, (i + 1) as nat);
    assert(bp == b * p);
    assert(bp >= b) by (nonlinear_arith)
        requires
            bp == b * p,
            p >= 1,
            b >= 1,
    ;
    // rank of s, split after slot i: zeros, then v at slot i, then the suffix
    lemma_pos_value_split(s, b, i + 1);
    let sl = pos_value(s.take(i + 1), b);
    let hi = pos_value(s.skip(i + 1), b);
    lemma_pos_value_split(s.take(i + 1), b, i);
    assert(s.take(i + 1).take(i) =~= s.take(i));
    assert(forall|j: int| 0 <= j < s.take(i).len() ==> #[trigger] s.take(i)[j] == 0);
    lemma_pos_value_zero(s.take(i), b);
    let unit = s.take(i + 1).skip(i);
    assert(unit.len() == 1);
    assert(unit.first() == s[i]);
    assert(unit.drop_first() =~= Seq::<usize>::empty());
    assert(pos_value(Seq::<usize>::empty(), b) == 0);
    assert(b * pos_value(unit.drop_first(), b) == 0) by (nonlinear_arith)
        requires
            pos_value(unit.drop_first(), b) == 0,
    ;
    assert(pos_value(unit, b) == v);
    assert(p * pos_value(unit, b) == v * p) by (nonlinear_arith)
        requires
            pos_value(unit, b) == v,
    ;
    assert(pos_value(s, b) == v * p + bp * hi);
    // the suffix of s holds the pack minus the v parts at slot i
    lemma_sum_split(s, i + 1);
    lemma_sum_take_step(s, i);
    lemma_sum_zero(s.take(i));
    assert(sum_parts(s.skip(i + 1)) == g - v);
    // rank of the successor: one less up front, one more one slot higher
    let a1 = s.update(i, 0usize);
    let a2 = a1.update(0, ((s[i] - 1) as usize));
    lemma_pos_value_update(s, b, i, 0usize);
    lemma_pos_value_update(a1, b, 0, ((s[i] - 1) as usize));
    lemma_pos_value_update(a2, b, i + 1, ((s[i + 1] + 1) as usize));
    assert(a1[0] == 0);
    assert(a2[i + 1] == s[i + 1]);
    assert(pow_int(b, 0nat) == 1);
    assert((0usize - s[i]) * p + (((s[i] - 1) as usize) - a1[0]) * pow_int(b, 0nat) + (((s[i
        + 1] + 1) as usize) - a2[i + 1]) * bp == bp - v * p + v - 1) by (nonlinear_arith)
        requires
            s[i] == v,
            a1[0] == 0,
            a2[i + 1] == s[i + 1],
            ((s[i] - 1) as usize) as int == v - 1,
            ((s[i + 1] + 1) as usize) as int == s[i + 1] + 1,
            pow_int(b, 0nat) == 1,
    ;
    assert(pos_value(advance_at(s, i), b) == v * p + bp * hi + bp - v * p + v - 1);
    assert(bp * (hi + 1) == bp * hi + bp) by (nonlinear_arith);
    assert(pos_value(advance_at(s, i), b) == (v - 1) + bp * (hi + 1));
    // rank of t, split at the same slot
    lemma_pos_value_split(t, b, i + 1);
    let lo = pos_value(t.take(i + 1), b);
    let ti = pos_value(t.skip(i + 1), b);
    assert(forall|j: int| 0 <= j < t.take(i + 1).len() ==> #[trigger] t.take(i + 1)[j] < b);
    assert(forall|j: int| 0 <= j < t.skip(i + 1).len() ==> #[trigger] t.skip(i + 1)[j] < b);
    assert(forall|j: int| 0 <= j < s.skip(i + 1).len() ==> #[trigger] s.skip(i + 1)[j] < b);
    lemma_pos_value_bound(t.take(i + 1), b);
    assert(lo < bp);
    lemma_pos_value_nonneg(t.take(i + 1), b);
    lemma_pos_value_ge_sum(t.take(i + 1), b);
    lemma_sum_split(t, i + 1);
    lemma_sum_nonneg(t.take(i + 1));
    lemma_sum_nonneg(t.skip(i + 1));
    if ti <= hi - 1 {
        assert(bp * ti <= bp * hi - bp) by (nonlinear_arith)
            requires
                ti <= hi - 1,
                bp >= 1,
        ;
        assert(v * p >= 0) by (nonlinear_arith)
            requires
                v >= 0,
                p >= 0,
        ;
        assert(false);
    } else if ti == hi {
        lemma_pos_value_injective(t.skip(i + 1), s.skip(i + 1), b);
        assert(t.skip(i + 1) == s.skip(i + 1));
        assert(sum_parts(t.take(i + 1)) == v);
        lemma_pos_value_le_sum_pow(t.take(i + 1), b);
        assert(lo <= v * p);
        assert(false);
    } else {
        if ti >= hi + 2 {
            assert(bp * ti >= bp * (hi + 1) + bp) by (nonlinear_arith)
                requires
                    ti >= hi + 2,
                    bp >= 1,
            ;
        } else {
            lemma_pos_excess(t.skip(i + 1), b);
            lemma_pos_excess(s.skip(i + 1), b);
            let et = pos_excess(t.skip(i + 1), b);
            let es = pos_excess(s.skip(i + 1), b);
            let stsk = sum_parts(t.skip(i + 1));
            assert(stsk <= g);
            if et <= es - 1 {
                assert(stsk >= g - v + b) by (nonlinear_arith)
                    requires
                        stsk + (b - 1) * et == (g - v) + (b - 1) * es + 1,
                        et <= es - 1,
                        b >= 1,
                ;
                assert(false);
            }
            assert(stsk <= g - v + 1) by (nonlinear_arith)
                requires
                    stsk + (b - 1) * et == (g - v) + (b - 1) * es + 1,
                    et >= es,
                    b >= 1,
            ;
            assert(sum_parts(t.take(i + 1)) >= v - 1);
            assert(bp * ti == bp * (hi + 1)) by (nonlinear_arith)
                requires
                    ti == hi + 1,
            ;
        }
    }
}

/// A sequence of compositions whose ranks strictly increase holds no
/// composition twice: part of the exactly-once guarantee of the
/// enumeration.
pub proof fn lemma_enumeration_no_duplicates(list: Seq<Seq<usize>>, group: usize)
    requires
        forall|i: int|
            0 <= i < list.len() - 1 ==> composition_rank(#[trigger] list[i + 1], group)
                > composition_rank(list[i], group),
    ensures
        forall|i: int, j: int| 0 <= i < j < list.len() ==> list[i] != list[j],
{
    assert forall|i: int, j: int| 0 <= i < j < list.len() implies list[i] != list[j] by {
        lemma_rank_chain(list, group, i, j);
    }
}

/// Ranks increase across any gap in a chain of strict increases.
proof fn lemma_rank_chain(list: Seq<Seq<usize>>, group: usize, i: int, j: int)
    requires
        forall|k: int|
            0 <= k < list.len() - 1 ==> composition_rank(#[trigger] list[k + 1], group)
                > composition_rank(list[k], group),
        0 <= i < j < list.len(),
    ensures
        composition_rank(list[j], group) > composition_rank(list[i], group),
    decreases j - i,
{
    if j == i + 1 {
        assert(composition_rank(list[i + 1], group) > composition_rank(list[i], group));
    } else {
        lemma_rank_chain(list, group, i + 1, j);
        assert(composition_rank(list[i + 1], group) > composition_rank(list[i], group));
    }
}

/// The composition is the last one of the enumeration: every slot before
/// the final one is empty.
pub open spec fn is_terminal(s: Seq<usize>) -> bool {
    forall|j: int| 0 <= j < s.len() - 1 ==> s[j] == 0
}

/// The composition after the one whose leftmost nonzero slot is `i`: one
/// unit moves from slot `i` to slot `i + 1`, and the rest of slot `i`
/// returns to the front.
pub open spec fn advance_at(s: Seq<usize>, i: int) -> Seq<usize> {
    s.update(i, 0usize).update(0, ((s[i] - 1) as usize)).update(i + 1, ((s[i + 1] + 1) as usize))
}

/// Produces every composition of the pack size over the configured number
/// of kinds, each exactly once: at each step one unit moves from the
/// leftmost nonzero slot (before the last) to the next slot, and the rest
/// of that slot returns to the front.
pub struct CompositionEnumerator {
    parts: Vec<usize>,
    group: usize,
    finished: bool,
}

impl CompositionEnumerator {
    /// The composition the enumerator will yield next.
    pub closed spec fn current(&self) -> Seq<usize> {
        self.parts@
    }

    /// The pack size being enumerated.
    pub closed spec fn group_spec(&self) -> usize {
        self.group
    }

    /// Whether the enumeration has yielded its last composition.
    pub closed spec fn is_finished(&self) -> bool {
        self.finished
    }

    /// The number of kinds.
    pub open spec fn kinds(&self) -> int {
        self.current().len() as int
    }

    /// The enumerator's invariant: at least one kind, and the current
    /// composition sums to the pack size.
    pub open spec fn wf(&self) -> bool {
        &&& self.current().len() >= 1
        &&& sum_parts(self.current()) == self.group_spec()
    }

    /// A fresh enumeration, starting from the composition with everything
    /// on the first kind.
    pub fn new(kinds: usize, group: usize) -> (r: CompositionEnumerator)
        requires
            kinds >= 1,
        ensures
            r.wf(),
            r.kinds() == kinds,
            r.group_spec() == group,
            r.current() == init_composition(kinds as nat, group),
            !r.is_finished(),
    {
        let mut parts: Vec<usize> = Vec::new();
        parts.push(group);
        let mut i: usize = 1;
        while i < kinds
            invariant
                1 <= i <= kinds,
                parts@.len() == i,
                parts@[0] == group,
                forall|j: int| 1 <= j < i ==> parts@[j] == 0,
            decreases kinds - i,
        {
            parts.push(0);
            i = i + 1;
        }
        proof {
            assert(parts@ =~= init_composition(kinds as nat, group));
            lemma_sum_init(kinds as nat, group);
        }
        CompositionEnumerator { parts, group, finished: false }
    }

    /// Yields the current composition and advances, or reports the end of
    /// the enumeration. To advance, one unit moves from the leftmost
    /// nonzero slot (before the last) to the next slot, and the rest of
    /// that slot returns to the front. Every yielded composition has one
    /// part per kind and sums to the pack size; the rank of the state
    /// strictly increases at every step, so no composition is yielded
    /// twice.
    pub fn next(&mut self) -> (r: Option<Vec<usize>>)
        requires
            old(self).wf(),
        ensures
            final(self).wf(),
            final(self).group_spec() == old(self).group_spec(),
            final(self).kinds() == old(self).kinds(),
            old(self).is_finished() ==> {
                &&& r is None
                &&& final(self).is_finished()
                &&& final(self).current() == old(self).current()
            },
            !old(self).is_finished() ==> {
                &&& r matches Some(v) && v@ == old(self).current()
                &&& (final(self).is_finished() <==> is_terminal(old(self).current()))
                &&& (!final(self).is_finished() ==> composition_rank(
                    final(self).current(),
                    old(self).group_spec(),
                ) > composition_rank(old(self).current(), old(self).group_spec()))
                &&& (!final(self).is_finished() ==> exists|i: int|
                    #![auto]
                    0 <= i < old(self).kinds() - 1 && old(self).current()[i] > 0 && (forall|
                        j: int,
                    | 0 <= j < i ==> old(self).current()[j] == 0) && final(self).current()
                        == advance_at(old(self).current(), i))
                &&& (final(self).is_finished() ==> final(self).current() == old(self).current())
            },
    {
        if self.finished {
            return None;
        }
        let result = clone_parts(&self.parts);
        let kinds = self.parts.len();
        let mut i: usize = 0;
        while i < kinds - 1 && self.parts[i] == 0
            invariant
                0 <= i <= kinds - 1,
                kinds == self.parts@.len() >= 1,
                forall|j: int| 0 <= j < i ==> self.parts@[j] == 0,
            decreases kinds - i,
        {
            i = i + 1;
        }
        if i < kinds - 1 {
            let v = self.parts[i];
            let w = self.parts[i + 1];
            proof {
                lemma_sum_pair_bound(self.parts@, i as int, i as int + 1);
                lemma_sum_nonneg(self.parts@);
                lemma_sum_element_bound(self.parts@, i as int);
            }
            let ghost before = self.parts@;
            let ghost b = rank_base(self.group);
            if i > 0 {
                self.parts.set(i, 0);
                self.parts.set(0, v - 1);
                self.parts.set(i + 1, w + 1);
                proof {
                    let s1 = before.update(i as int, 0usize);
                    let s2 = s1.update(0, (v - 1) as usize);
                    lemma_sum_update(before, i as int, 0usize);
                    lemma_sum_update(s1, 0, (v - 1) as usize);
                    lemma_sum_update(s2, i as int + 1, (w + 1) as usize);
                    lemma_pos_value_update(before, b, i as int, 0usize);
                    lemma_pos_value_update(s1, b, 0, (v - 1) as usize);
                    lemma_pos_value_update(s2, b, i as int + 1, (w + 1) as usize);
                    let p = pow_int(b, (i as int) as nat);
                    lemma_pow_int_pos(b, (i as int) as nat);
                    assert(pow_int(b, (i as int + 1) as nat) == b * p);
                    assert((0usize - before[i as int]) * p + (((v - 1) as usize) - s1[0])
                        * pow_int(b, 0nat) + (((w + 1) as usize) - s2[i as int + 1]) * pow_int(
                        b,
                        (i as int + 1) as nat,
                    ) >= 1) by (nonlinear_arith)
                        requires
                            before[i as int] == v,
                            s1[0] == 0,
                            s2[i as int + 1] == w,
                            ((v - 1) as usize) as int == v - 1,
                            ((w + 1) as usize) as int == w + 1,
                            pow_int(b, 0nat) == 1,
                            pow_int(b, (i as int + 1) as nat) == b * p,
                            p >= 1,
                            b >= v + 1,
                            v >= 1,
                    ;
                    assert(composition_rank(self.parts@, self.group) > composition_rank(
                        before,
                        self.group,
                    ));
                    assert(!is_terminal(before));
                    assert(self.parts@ =~= advance_at(before, i as int));
                    assert(forall|j: int| 0 <= j < i ==> before[j] == 0);
                }
            } else {
                self.parts.set(i, v - 1);
                self.parts.set(i + 1, w + 1);
                proof {
                    let s1 = before.update(i as int, (v - 1) as usize);
                    lemma_sum_update(before, i as int, (v - 1) as usize);
                    lemma_sum_update(s1, i as int + 1, (w + 1) as usize);
                    lemma_pos_value_update(before, b, i as int, (v - 1) as usize);
                    lemma_pos_value_update(s1, b, i as int + 1, (w + 1) as usize);
                    assert(pow_int(b, 0nat) == 1);
                    assert(pow_int(b, (i as int + 1) as nat) == b * pow_int(b, (i as int) as nat));
                    assert((((v - 1) as usize) - before[i as int]) * pow_int(b, (i as int) as nat)
                        + (((w + 1) as usize) - s1[i as int + 1]) * pow_int(
                        b,
                        (i as int + 1) as nat,
                    ) >= 1) by (nonlinear_arith)
                        requires
                            before[i as int] == v,
                            s1[i as int + 1] == w,
                            ((v - 1) as usize) as int == v - 1,
                            ((w + 1) as usize) as int == w + 1,
                            pow_int(b, (i as int) as nat) == 1,
                            pow_int(b, (i as int + 1) as nat) == b,
                            b >= 2,
                    ;
                    assert(composition_rank(self.parts@, self.group) > composition_rank(
                        before,
                        self.group,
                    ));
                    assert(!is_terminal(before));
                    assert(self.parts@ =~= advance_at(before, i as int));
                }
            }
        } else {
            self.finished = true;
            proof {
                assert(is_terminal(self.parts@));
            }
        }
        Some(result)
    }
}

/// Extending a prefix by one part multiplies its factorial product by the
/// factorial of that part.
pub proof fn lemma_prod_fact_take_step(s: Seq<usize>, m: int)
    requires
        0 <= m < s.len(),
    ensures
        prod_fact(s.take(m + 1)) == prod_fact(s.take(m)) * fact(s[m] as nat),
{
    assert(s.take(m + 1).drop_last() =~= s.take(m));
    assert(s.take(m + 1).last() == s[m]);
}

/// Parts equal to zero at the tail do not change the factorial product.
pub proof fn lemma_prod_fact_trailing_zeros(s: Seq<usize>, m: int)
    requires
        0 <= m <= s.len(),
        forall|i: int| m <= i < s.len() ==> s[i] == 0,
    ensures
        prod_fact(s) == prod_fact(s.take(m)),
    decreases s.len() - m,
{
    if m == s.len() {
        assert(s.take(m) =~= s);
    } else {
        let t = s.drop_last();
        assert(s.last() == 0usize);
        assert(fact(0nat) == 1);
        lemma_prod_fact_trailing_zeros(t, m);
        assert(t.take(m) =~= s.take(m));
    }
}

/// A single draw's outcome: a composition of the pack together with its
/// exact probability.
#[derive(Debug)]
pub struct StateTransition {
    /// How many items of each kind the pack held.
    pub transition: Vec<usize>,
    /// The exact probability of that composition.
    pub probability: Rational,
}

/// The one recoverable error: a population whose total weight is zero
/// admits no probability distribution.
#[derive(Clone, Copy, PartialEq, Eq, Structural, Debug)]
pub enum ChainError {
    ZeroTotalWeight,
}

/// The composition appears among the listed outcomes.
pub open spec fn holds_composition(ts: Seq<StateTransition>, c: Seq<usize>) -> bool {
    exists|i: int| 0 <= i < ts.len() && ts[i].transition@ == c
}

/// A weighted population of card kinds drawn in fixed-size packs.
pub struct MarkovChain {
    /// Number of cards per pack.
    group: usize,
    /// Target number of cards of each kind.
    target: Vec<usize>,
    /// Relative weight of each kind.
    weights: Vec<Rational>,
}

impl MarkovChain {
    /// The pack size.
    pub closed spec fn group_spec(&self) -> usize {
        self.group
    }

    /// The per-kind weights as rational pairs.
    pub closed spec fn weights_view(&self) -> Seq<(int, int)> {
        self.weights@.map(|i: int, w: Rational| w@)
    }

    /// The per-kind collection targets.
    pub closed spec fn targets_view(&self) -> Seq<usize> {
        self.target@
    }

    /// The number of kinds.
    pub open spec fn kinds(&self) -> int {
        self.weights_view().len() as int
    }

    /// Every weight is a well-formed, non-negative rational.
    pub open spec fn wf(&self) -> bool {
        forall|i: int|
            0 <= i < self.weights_view().len() ==> rat_wf(#[trigger] self.weights_view()[i])
                && self.weights_view()[i].0 >= 0
    }

    /// A population drawing `group` cards per pack, with no kinds yet.
    pub fn new(group: usize) -> (r: MarkovChain)
        ensures
            r.wf(),
            r.group_spec() == group,
            r.weights_view() == Seq::<(int, int)>::empty(),
            r.targets_view() == Seq::<usize>::empty(),
    {
        let r = MarkovChain { group, target: Vec::new(), weights: Vec::new() };
        proof {
            assert(r.weights_view() =~= Seq::<(int, int)>::empty());
            assert(r.targets_view() =~= Seq::<usize>::empty());
        }
        r
    }

    /// Appends a kind with its collection target and relative weight. The
    /// weight must be a well-formed non-negative rational.
    pub fn define_cards(&mut self, needs: usize, weight: Rational)
        requires
            old(self).wf(),
            weight.wf(),
            weight@.0 >= 0,
        ensures
            final(self).wf(),
            final(self).group_spec() == old(self).group_spec(),
            final(self).weights_view() == old(self).weights_view().push(weight@),
            final(self).targets_view() == old(self).targets_view().push(needs),
    {
        let ghost w = weight@;
        self.target.push(needs);
        self.weights.push(weight);
        proof {
            assert(self.weights_view() =~= old(self).weights_view().push(w));
        }
    }

    /// The number of kinds of cards.
    pub fn count_kind(&self) -> (r: usize)
        ensures
            r as int == self.kinds(),
    {
        self.weights.len()
    }

    /// The number of cards in a pack.
    pub fn count_deck(&self) -> (r: usize)
        ensures
            r as int == self.group_spec(),
    {
        self.group
    }

    /// The weight of each kind, in kind order.
    pub fn get_weights(&self) -> (r: Vec<Rational>)
        ensures
            r@.len() == self.kinds(),
            forall|i: int| 0 <= i < r@.len() ==> (#[trigger] r@[i])@ == self.weights_view()[i],
    {
        let mut r: Vec<Rational> = Vec::new();
        let mut i: usize = 0;
        while i < self.weights.len()
            invariant
                0 <= i <= self.weights@.len(),
                r@.len() == i,
                forall|j: int| 0 <= j < i ==> (#[trigger] r@[j])@ == self.weights_view()[j],
            decreases self.weights@.len() - i,
        {
            r.push(self.weights[i].duplicate());
            i = i + 1;
        }
        r
    }

    /// The probability of each kind: its weight divided by the total
    /// weight. Reports the configuration error, and nothing else, exactly
    /// when the total weight is zero.
    pub fn get_probabilities(&self) -> (r: Result<Vec<Rational>, ChainError>)
        requires
            self.wf(),
        ensures
            match r {
                Ok(ps) => {
                    &&& rat_sum(self.weights_view()).0 != 0
                    &&& ps@.len() == self.kinds()
                    &&& forall|i: int|
                        0 <= i < ps@.len() ==> (#[trigger] ps@[i])@ == probabilities_of(
                            self.weights_view(),
                        )[i] && ps@[i].wf()
                },
                Err(e) => {
                    &&& e == ChainError::ZeroTotalWeight
                    &&& rat_sum(self.weights_view()).0 == 0
                },
            },
    {
        let ghost wv = self.weights_view();
        let mut total = Rational::from_u64(0);
        let mut i: usize = 0;
        while i < self.weights.len()
            invariant
                self.wf(),
                wv == self.weights_view(),
                0 <= i <= self.weights@.len(),
                total@ == rat_sum(wv.take(i as int)),
                total.wf(),
            decreases self.weights@.len() - i,
        {
            proof {
                assert(wv.take(i as int + 1).drop_last() =~= wv.take(i as int));
                assert(wv.take(i as int + 1).last() == wv[i as int]);
            }
            total = total.add(&self.weights[i]);
            i = i + 1;
        }
        proof {
            assert(wv.take(self.weights@.len() as int) =~= wv);
        }
        if total.is_zero() {
            return Err(ChainError::ZeroTotalWeight);
        }
        proof {
            lemma_rat_sum_num_nonneg(wv);
        }
        let mut ps: Vec<Rational> = Vec::new();
        let mut i: usize = 0;
        while i < self.weights.len()
            invariant
                self.wf(),
                wv == self.weights_view(),
                0 <= i <= self.weights@.len(),
                total@ == rat_sum(wv),
                total.wf(),
                total@.0 > 0,
                ps@.len() == i,
                forall|j: int|
                    0 <= j < i ==> (#[trigger] ps@[j])@ == probabilities_of(wv)[j] && ps@[j].wf(),
            decreases self.weights@.len() - i,
        {
            proof {
                assert(wv[i as int] == self.weights@[i as int]@);
                assert(rat_wf(wv[i as int]));
                assert(probabilities_of(wv)[i as int] == rat_mul(
                    wv[i as int],
                    (rat_sum(wv).1, rat_sum(wv).0),
                ));
            }
            let p = self.weights[i].div(&total);
            ps.push(p);
            i = i + 1;
        }
        Ok(ps)
    }

    /// The multinomial frequency of a composition: the number of distinct
    /// orderings of the pack's draws that realize it, computed as an
    /// interleaved product and division so every intermediate stays exact.
    pub fn get_frequency(&self, delta: &Vec<usize>) -> (r: Rational)
        requires
            delta@.len() == self.kinds(),
            sum_parts(delta@) == self.group_spec(),
        ensures
            r@ == frequency_spec(self.group_spec() as nat, delta@),
            r.wf(),
    {
        let kinds = self.weights.len();
        let mut frequency = Rational::from_u64(1);
        let mut count: u64 = 0;
        let mut i: usize = 0;
        while i < kinds
            invariant
                0 <= i <= kinds,
                kinds == delta@.len(),
                sum_parts(delta@) == self.group_spec(),
                self.group_spec() <= usize::MAX as int,
                count == sum_parts(delta@.take(i as int)),
                frequency@ == (fact(count as nat), prod_fact(delta@.take(i as int))),
                frequency.wf(),
            decreases kinds - i,
        {
            let di = delta[i];
            let mut j: usize = 0;
            while j < di
                invariant
                    0 <= i < kinds,
                    kinds == delta@.len(),
                    sum_parts(delta@) == self.group_spec(),
                    self.group_spec() <= usize::MAX as int,
                    di == delta@[i as int],
                    0 <= j <= di,
                    count == sum_parts(delta@.take(i as int)) + j,
                    frequency@ == (
                        fact(count as nat),
                        prod_fact(delta@.take(i as int)) * fact(j as nat),
                    ),
                    frequency.wf(),
                decreases di - j,
            {
                proof {
                    lemma_sum_take_step(delta@, i as int);
                    lemma_sum_take_le(delta@, i as int + 1);
                    lemma_sum_nonneg(delta@.take(i as int));
                }
                let factor = Rational::from_u64(count + 1);
                let divisor = Rational::from_u64(j as u64 + 1);
                frequency = frequency.mul(&factor);
                proof {
                    let c = count as nat;
                    let fc = fact(c);
                    let cp = count as int + 1;
                    assert(fact((c + 1) as nat) == cp * fc);
                    assert(fc * cp == cp * fc) by (nonlinear_arith);
                    assert(((count + 1) as u64) as nat == c + 1);
                    assert(frequency@.0 == fact((c + 1) as nat));
                }
                frequency = frequency.div(&divisor);
                proof {
                    let p = prod_fact(delta@.take(i as int));
                    let fj = fact(j as nat);
                    let f1 = fact((j + 1) as nat);
                    let jp = j as int + 1;
                    assert(f1 == jp * fj);
                    assert(p * fj * jp == p * f1) by (nonlinear_arith)
                        requires
                            f1 == jp * fj,
                    ;
                    assert(((j as u64 + 1) as u64) as int == jp);
                }
                count = count + 1;
                j = j + 1;
            }
            proof {
                lemma_sum_take_step(delta@, i as int);
                lemma_prod_fact_take_step(delta@, i as int);
            }
            i = i + 1;
        }
        proof {
            assert(delta@.take(kinds as int) =~= delta@);
        }
        frequency
    }

    /// The multinomial frequency of a composition that may be malformed:
    /// rejected, with no value, exactly when its length is not the number
    /// of kinds or its parts do not sum to the pack size.
    pub fn try_frequency(&self, delta: &Vec<usize>) -> (r: Option<Rational>)
        ensures
            r is Some <==> delta@.len() == self.kinds() && sum_parts(delta@)
                == self.group_spec(),
            r matches Some(f) ==> f@ == frequency_spec(self.group_spec() as nat, delta@) && f.wf(),
    {
        if delta.len() != self.weights.len() {
            return None;
        }
        let mut acc: usize = 0;
        let mut i: usize = 0;
        while i < delta.len()
            invariant
                0 <= i <= delta@.len(),
                acc == sum_parts(delta@.take(i as int)),
                acc <= self.group,
            decreases delta@.len() - i,
        {
            proof {
                lemma_sum_take_step(delta@, i as int);
            }
            let d = delta[i];
            if d > self.group - acc {
                proof {
                    lemma_sum_take_le(delta@, i as int + 1);
                }
                return None;
            }
            acc = acc + d;
            i = i + 1;
        }
        proof {
            assert(delta@.take(delta@.len() as int) =~= delta@);
        }
        if acc != self.group {
            return None;
        }
        Some(self.get_frequency(delta))
    }

    /// A fresh enumeration of every composition of one pack over the
    /// configured kinds.
    pub fn get_transition_states(&self) -> (r: CompositionEnumerator)
        requires
            self.kinds() >= 1,
        ensures
            r.wf(),
            !r.is_finished(),
            r.kinds() == self.kinds(),
            r.group_spec() == self.group_spec(),
            r.current() == init_composition(self.kinds() as nat, self.group_spec()),
    {
        CompositionEnumerator::new(self.weights.len(), self.group)
    }

    /// The full single-draw distribution: every composition of one pack,
    /// each exactly once, with its exact probability (frequency times the
    /// product of the per-kind probabilities raised to the parts). No
    /// composition is missing, none appears twice (their ranks strictly
    /// increase), and the first is the initial composition. Reports the
    /// configuration error exactly when the total weight is zero.
    pub fn get_transitions(&self) -> (r: Result<Vec<StateTransition>, ChainError>)
        requires
            self.wf(),
            self.kinds() >= 1,
        ensures
            match r {
                Ok(ts) => {
                    &&& rat_sum(self.weights_view()).0 != 0
                    &&& ts@.len() >= 1
                    &&& ts@[0].transition@ == init_composition(self.kinds() as nat, self.group_spec())
                    &&& forall|i: int|
                        0 <= i < ts@.len() ==> (#[trigger] ts@[i]).transition@.len()
                            == self.kinds() && sum_parts(ts@[i].transition@) == self.group_spec()
                            && ts@[i].probability@ == transition_probability_spec(
                            self.weights_view(),
                            self.group_spec() as nat,
                            ts@[i].transition@,
                        ) && ts@[i].probability.wf()
                    &&& forall|i: int|
                        0 <= i < ts@.len() - 1 ==> composition_rank(
                            #[trigger] ts@[i + 1].transition@,
                            self.group_spec(),
                        ) > composition_rank(ts@[i].transition@, self.group_spec())
                    &&& forall|c: Seq<usize>|
                        c.len() == self.kinds() && #[trigger] sum_parts(c) == self.group_spec()
                            ==> holds_composition(ts@, c)
                },
                Err(e) => {
                    &&& e == ChainError::ZeroTotalWeight
                    &&& rat_sum(self.weights_view()).0 == 0
                },
            },
    {
        let ghost wv = self.weights_view();
        let probabilities = match self.get_probabilities() {
            Ok(ps) => ps,
            Err(e) => {
                return Err(e);
            },
        };
        let kinds = self.weights.len();
        let mut transitions: Vec<StateTransition> = Vec::new();
        let mut en = CompositionEnumerator::new(kinds, self.group);
        let ghost b = rank_base(self.group);
        proof {
            lemma_pos_value_nonneg(en.current(), b);
            lemma_parts_below_base(en.current(), self.group);
            lemma_pos_value_bound(en.current(), b);
            lemma_init_rank(kinds as nat, self.group);
            assert forall|c: Seq<usize>|
                c.len() == kinds && #[trigger] sum_parts(c) == self.group_spec()
                    && composition_rank(c, self.group_spec()) < composition_rank(
                    en.current(),
                    self.group_spec(),
                ) implies holds_composition(transitions@, c) by {
                lemma_pos_value_ge_sum(c, b);
            }
        }
        loop
            invariant
                self.wf(),
                wv == self.weights_view(),
                kinds == self.kinds(),
                probabilities@.len() == kinds,
                forall|i: int|
                    0 <= i < probabilities@.len() ==> (#[trigger] probabilities@[i])@
                        == probabilities_of(wv)[i] && probabilities@[i].wf(),
                en.wf(),
                en.kinds() == kinds,
                en.group_spec() == self.group_spec(),
                b == rank_base(self.group_spec()),
                composition_rank(en.current(), self.group_spec()) >= 0,
                composition_rank(en.current(), self.group_spec()) < pow_int(b, kinds as nat),
                forall|i: int|
                    0 <= i < transitions@.len() ==> (#[trigger] transitions@[i]).transition@.len()
                        == self.kinds() && sum_parts(transitions@[i].transition@)
                        == self.group_spec() && transitions@[i].probability@
                        == transition_probability_spec(
                        wv,
                        self.group_spec() as nat,
                        transitions@[i].transition@,
                    ) && transitions@[i].probability.wf(),
                forall|i: int|
                    0 <= i < transitions@.len() - 1 ==> composition_rank(
                        #[trigger] transitions@[i + 1].transition@,
                        self.group_spec(),
                    ) > composition_rank(transitions@[i].transition@, self.group_spec()),
                transitions@.len() == 0 ==> !en.is_finished() && en.current() == init_composition(
                    self.kinds() as nat,
                    self.group,
                ),
                transitions@.len() > 0 ==> transitions@[0].transition@ == init_composition(
                    self.kinds() as nat,
                    self.group,
                ),
                !en.is_finished() && transitions@.len() > 0 ==> composition_rank(
                    en.current(),
                    self.group_spec(),
                ) > composition_rank(
                    transitions@[transitions@.len() - 1].transition@,
                    self.group_spec(),
                ),
                en.is_finished() ==> transitions@.len() >= 1,
                !en.is_finished() ==> forall|c: Seq<usize>|
                    c.len() == kinds && #[trigger] sum_parts(c) == self.group_spec()
                        && composition_rank(c, self.group_spec()) < composition_rank(
                        en.current(),
                        self.group_spec(),
                    ) ==> holds_composition(transitions@, c),
                en.is_finished() ==> forall|c: Seq<usize>|
                    c.len() == kinds && #[trigger] sum_parts(c) == self.group_spec()
                        ==> holds_composition(transitions@, c),
            ensures
                transitions@.len() >= 1,
                transitions@[0].transition@ == init_composition(
                    self.kinds() as nat,
                    self.group_spec(),
                ),
                forall|i: int|
                    0 <= i < transitions@.len() ==> (#[trigger] transitions@[i]).transition@.len()
                        == self.kinds() && sum_parts(transitions@[i].transition@)
                        == self.group_spec() && transitions@[i].probability@
                        == transition_probability_spec(
                        wv,
                        self.group_spec() as nat,
                        transitions@[i].transition@,
                    ) && transitions@[i].probability.wf(),
                forall|i: int|
                    0 <= i < transitions@.len() - 1 ==> composition_rank(
                        #[trigger] transitions@[i + 1].transition@,
                        self.group_spec(),
                    ) > composition_rank(transitions@[i].transition@, self.group_spec()),
                forall|c: Seq<usize>|
                    c.len() == kinds && #[trigger] sum_parts(c) == self.group_spec()
                        ==> holds_composition(transitions@, c),
            decreases (if en.is_finished() {
                0int
            } else {
                pow_int(b, kinds as nat) - composition_rank(en.current(), self.group_spec())
            }),
        {
            let ghost prior = en.current();
            let n = en.next();
            proof {
                lemma_pos_value_nonneg(en.current(), b);
                lemma_parts_below_base(en.current(), self.group);
                lemma_pos_value_bound(en.current(), b);
            }
            match n {
                None => {
                    break ;
                },
                Some(delta) => {
                    let frequency = self.get_frequency(&delta);
                    let mut product = Rational::from_u64(1);
                    let mut i: usize = 0;
                    proof {
                        assert(probabilities_of(wv).len() == wv.len());
                    }
                    while i < kinds
                        invariant
                            0 <= i <= kinds,
                            kinds == delta@.len(),
                            probabilities@.len() == kinds,
                            probabilities_of(wv).len() == kinds,
                            forall|k: int|
                                0 <= k < probabilities@.len() ==> (#[trigger] probabilities@[k])@
                                    == probabilities_of(wv)[k] && probabilities@[k].wf(),
                            product@ == pow_product(
                                probabilities_of(wv).take(i as int),
                                delta@.take(i as int),
                            ),
                            product.wf(),
                        decreases kinds - i,
                    {
                        let pw = probabilities[i].pow_u(delta[i]);
                        product = product.mul(&pw);
                        proof {
                            let pv = probabilities_of(wv);
                            assert(pv.take(i as int + 1).drop_last() =~= pv.take(i as int));
                            assert(delta@.take(i as int + 1).drop_last() =~= delta@.take(i as int));
                            assert(pv.take(i as int + 1).last() == pv[i as int]);
                            assert(delta@.take(i as int + 1).last() == delta@[i as int]);
                        }
                        i = i + 1;
                    }
                    proof {
                        assert(probabilities_of(wv).take(kinds as int) =~= probabilities_of(wv));
                        assert(delta@.take(kinds as int) =~= delta@);
                    }
                    let probability = frequency.mul(&product);
                    let ghost ts_before = transitions@;
                    transitions.push(StateTransition { transition: delta, probability });
                    proof {
                        let grp = self.group_spec();
                        let now = transitions@;
                        assert(now[now.len() - 1].transition@ == prior);
                        if !en.is_finished() {
                            let iw = choose|ii: int|
                                #![auto]
                                0 <= ii < prior.len() - 1 && prior[ii] > 0 && (forall|j: int|
                                    0 <= j < ii ==> prior[j] == 0) && en.current() == advance_at(
                                    prior,
                                    ii,
                                );
                            assert(0 <= iw < prior.len() - 1 && prior[iw] > 0 && (forall|j: int|
                                0 <= j < iw ==> prior[j] == 0) && en.current() == advance_at(
                                prior,
                                iw,
                            ));
                            assert forall|c: Seq<usize>|
                                c.len() == kinds && #[trigger] sum_parts(c) == grp
                                    && composition_rank(c, grp) < composition_rank(
                                    en.current(),
                                    grp,
                                ) implies holds_composition(now, c) by {
                                if composition_rank(c, grp) < composition_rank(prior, grp) {
                                    assert(holds_composition(ts_before, c));
                                    let w = choose|idx: int|
                                        0 <= idx < ts_before.len() && ts_before[idx].transition@
                                            == c;
                                    assert(now[w].transition@ == c);
                                } else if composition_rank(c, grp) == composition_rank(
                                    prior,
                                    grp,
                                ) {
                                    lemma_parts_below_base(c, self.group);
                                    lemma_parts_below_base(prior, self.group);
                                    lemma_pos_value_injective(c, prior, b);
                                    assert(now[now.len() - 1].transition@ == c);
                                } else {
                                    lemma_advance_is_immediate(prior, c, self.group, iw);
                                    assert(false);
                                }
                            }
                        } else {
                            assert(is_terminal(prior));
                            lemma_terminal_rank(prior, self.group);
                            assert forall|c: Seq<usize>|
                                c.len() == kinds && #[trigger] sum_parts(c) == grp
                                    implies holds_composition(now, c) by {
                                lemma_pos_value_le_sum_pow(c, b);
                                if composition_rank(c, grp) < composition_rank(prior, grp) {
                                    assert(holds_composition(ts_before, c));
                                    let w = choose|idx: int|
                                        0 <= idx < ts_before.len() && ts_before[idx].transition@
                                            == c;
                                    assert(now[w].transition@ == c);
                                } else {
                                    lemma_parts_below_base(c, self.group);
                                    lemma_parts_below_base(prior, self.group);
                                    lemma_pos_value_injective(c, prior, b);
                                    assert(now[now.len() - 1].transition@ == c);
                                }
                            }
                        }
                    }
                },
            }
        }
        Ok(transitions)
    }
}

/// The frequency of the composition with every item on one kind is
/// exactly one.
pub proof fn lemma_frequency_single_kind(g: usize, parts: Seq<usize>)
    requires
        parts.len() >= 1,
        parts[0] == g,
        forall|i: int| 1 <= i < parts.len() ==> parts[i] == 0,
    ensures
        rat_eq(frequency_spec(g as nat, parts), (1int, 1int)),
{
    lemma_prod_fact_trailing_zeros(parts, 1);
    let t = parts.take(1);
    assert(t.drop_last() =~= Seq::<usize>::empty());
    assert(t.last() == g);
    assert(prod_fact(Seq::<usize>::empty()) == 1);
    assert(prod_fact(t) == prod_fact(t.drop_last()) * fact(t.last() as nat));
    assert(prod_fact(parts) == 1 * fact(g as nat));
    assert(frequency_spec(g as nat, parts) == (fact(g as nat), prod_fact(parts)));
    assert(fact(g as nat) * 1int == 1int * prod_fact(parts));
}

/// The frequency of the composition with exactly one item moved to the
/// next kind is exactly the pack size.
#[verifier::rlimit(50)]
pub proof fn lemma_frequency_one_moved(g: usize, parts: Seq<usize>)
    requires
        g >= 1,
        parts.len() >= 2,
        parts[0] == g - 1,
        parts[1] == 1,
        forall|i: int| 2 <= i < parts.len() ==> parts[i] == 0,
    ensures
        rat_eq(frequency_spec(g as nat, parts), (g as int, 1int)),
{
    lemma_prod_fact_trailing_zeros(parts, 2);
    let t2 = parts.take(2);
    let t1 = parts.take(1);
    assert(t2.drop_last() =~= t1);
    assert(t2.last() == 1usize);
    assert(t1.drop_last() =~= Seq::<usize>::empty());
    assert(t1.last() == parts[0]);
    assert(fact(1nat) == 1 * fact(0nat));
    assert(prod_fact(Seq::<usize>::empty()) == 1);
    assert(prod_fact(t1) == prod_fact(t1.drop_last()) * fact(t1.last() as nat));
    assert(prod_fact(t1) == 1 * fact((g - 1) as nat));
    assert(1 * fact((g - 1) as nat) == fact((g - 1) as nat));
    assert(prod_fact(t2) == prod_fact(t2.drop_last()) * fact(t2.last() as nat));
    assert(prod_fact(parts) == prod_fact(t1) * 1);
    assert(fact(g as nat) == g * fact((g - 1) as nat));
    assert(frequency_spec(g as nat, parts) == (fact(g as nat), prod_fact(parts)));
    assert(prod_fact(parts) == fact((g - 1) as nat));
    let fg1 = fact((g - 1) as nat);
    assert(fact(g as nat) * 1int == (g as int) * fg1) by (nonlinear_arith)
        requires
            fact(g as nat) == g * fg1,
    ;
}

/// With a single kind, the one composition of the pack (everything on
/// that kind) carries the whole distribution: its probability is exactly
/// one. This is the single-kind slice of the law that the transition
/// probabilities sum to one.
pub proof fn lemma_single_kind_distribution(w: (int, int), g: usize, parts: Seq<usize>)
    requires
        w.1 > 0,
        w.0 > 0,
        parts.len() == 1,
        parts[0] == g,
    ensures
        rat_eq(transition_probability_spec(seq![w], g as nat, parts), (1int, 1int)),
{
    let ws = seq![w];
    assert(ws.drop_last() =~= Seq::<(int, int)>::empty());
    assert(rat_sum(Seq::<(int, int)>::empty()) == (0int, 1int));
    assert(rat_sum(ws) == rat_add((0int, 1int), w));
    assert(rat_sum(ws) == (w.0 * 1 + w.0 * 0, 1 * w.1));
    let p = probabilities_of(ws)[0];
    assert(p == rat_mul(w, (rat_sum(ws).1, rat_sum(ws).0)));
    assert(rat_eq(p, (1int, 1int))) by (nonlinear_arith)
        requires
            p == (w.0 * (1 * w.1), w.1 * (w.0 * 1 + w.0 * 0)),
    ;
    let ps = probabilities_of(ws);
    assert(ps.drop_last() =~= Seq::<(int, int)>::empty());
    assert(parts.drop_last() =~= Seq::<usize>::empty());
    assert(pow_product(Seq::<(int, int)>::empty(), Seq::<usize>::empty()) == (1int, 1int));
    assert(ps.last() == p);
    assert(parts.last() == g);
    assert(pow_product(ps, parts) == rat_mul((1int, 1int), rat_pow(p, g as nat)));
    lemma_rat_pow_one(p, g as nat);
    let q = rat_pow(p, g as nat);
    assert(pow_product(ps, parts) == (1 * q.0, 1 * q.1));
    lemma_frequency_single_kind(g, parts);
    let f = frequency_spec(g as nat, parts);
    assert(rat_eq(rat_mul(f, (1 * q.0, 1 * q.1)), (1int, 1int))) by (nonlinear_arith)
        requires
            f.0 == f.1,
            q.0 == q.1,
    ;
}

/// An exact copy of a composition.
fn clone_parts(v: &Vec<usize>) -> (r: Vec<usize>)
    ensures
        r@ == v@,
{
    let mut r: Vec<usize> = Vec::new();
    let mut i: usize = 0;
    while i < v.len()
        invariant
            0 <= i <= v@.len(),
            r@ == v@.take(i as int),
        decreases v@.len() - i,
    {
        r.push(v[i]);
        proof {
            assert(v@.take(i as int).push(v@[i as int]) =~= v@.take(i as int + 1));
        }
        i = i + 1;
    }
    proof {
        assert(v@.take(v@.len() as int) =~= v@);
    }
    r
}

} // verus!

