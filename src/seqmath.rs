use vstd::prelude::*;

verus! {

/// The elements of a sequence of machine integers, as mathematical integers.
pub open spec fn ints(s: Seq<u32>) -> Seq<int> {
    s.map_values(|x: u32| x as int)
}

/// Σ x over `s`.
pub open spec fn sum(s: Seq<int>) -> int
    decreases s.len(),
{
    if s.len() == 0 {
        0
    } else {
        sum(s.drop_last()) + s.last()
    }
}

/// Σ x² over `s`.
pub open spec fn sum_sq(s: Seq<int>) -> int
    decreases s.len(),
{
    if s.len() == 0 {
        0
    } else {
        sum_sq(s.drop_last()) + s.last() * s.last()
    }
}

/// Σ (a·x − b)² over `s`. With `a` the length of `s` and `b` its sum, this is
/// `a³` times the population variance of `s`: Σ (x − mean)² / a.
pub open spec fn sum_sq_dev(s: Seq<int>, a: int, b: int) -> int
    decreases s.len(),
{
    if s.len() == 0 {
        0
    } else {
        sum_sq_dev(s.drop_last(), a, b) + (a * s.last() - b) * (a * s.last() - b)
    }
}

/// Every element of `s` lies in `0..=hi`.
pub open spec fn all_within(s: Seq<int>, hi: int) -> bool {
    forall|i: int| 0 <= i < s.len() ==> 0 <= #[trigger] s[i] <= hi
}

pub proof fn lemma_sum_push(s: Seq<int>, x: int)
    ensures
        sum(s.push(x)) == sum(s) + x,
        sum_sq(s.push(x)) == sum_sq(s) + x * x,
{
    assert(s.push(x).drop_last() =~= s);
}

pub proof fn lemma_sum_first(s: Seq<int>)
    requires
        s.len() > 0,
    ensures
        sum(s) == s[0] + sum(s.subrange(1, s.len() as int)),
        sum_sq(s) == s[0] * s[0] + sum_sq(s.subrange(1, s.len() as int)),
    decreases s.len(),
{
    if s.len() > 1 {
        let t = s.drop_last();
        lemma_sum_first(t);
        assert(s.subrange(1, s.len() as int).drop_last() =~= t.subrange(1, t.len() as int));
    } else {
        assert(s.drop_last() =~= Seq::<int>::empty());
        assert(s.subrange(1, s.len() as int) =~= Seq::<int>::empty());
    }
}

pub proof fn lemma_sum_bounds(s: Seq<int>, hi: int)
    requires
        all_within(s, hi),
    ensures
        0 <= sum(s) <= s.len() * hi,
        0 <= sum_sq(s) <= s.len() * (hi * hi),
    decreases s.len(),
{
    if s.len() > 0 {
        let t = s.drop_last();
        assert(all_within(t, hi)) by {
            assert forall|i: int| 0 <= i < t.len() implies 0 <= #[trigger] t[i] <= hi by {
                assert(t[i] == s[i]);
            }
        }
        lemma_sum_bounds(t, hi);
        let x = s.last();
        assert(0 <= x <= hi) by {
            assert(x == s[s.len() - 1]);
        }
        assert(0 <= x * x <= hi * hi) by (nonlinear_arith)
            requires
                0 <= x <= hi,
        ;
        assert(s.len() * hi == t.len() * hi + hi) by (nonlinear_arith)
            requires
                s.len() == t.len() + 1,
        ;
        assert(s.len() * (hi * hi) == t.len() * (hi * hi) + hi * hi) by (nonlinear_arith)
            requires
                s.len() == t.len() + 1,
        ;
    }
}

/// Expands Σ (a·x − b)² into a²·Σx² − 2ab·Σx + n·b².
pub proof fn lemma_sum_sq_dev_expand(s: Seq<int>, a: int, b: int)
    ensures
        sum_sq_dev(s, a, b) == a * a * sum_sq(s) - 2 * a * b * sum(s) + s.len() * (b * b),
    decreases s.len(),
{
    if s.len() > 0 {
        let t = s.drop_last();
        lemma_sum_sq_dev_expand(t, a, b);
        let x = s.last();
        let (q, p, n) = (sum_sq(t), sum(t), t.len() as int);
        assert((a * x - b) * (a * x - b) == a * a * (x * x) - 2 * a * b * x + b * b)
            by (nonlinear_arith);
        assert(a * a * (q + x * x) == a * a * q + a * a * (x * x)) by (nonlinear_arith);
        assert(2 * a * b * (p + x) == 2 * a * b * p + 2 * a * b * x) by (nonlinear_arith);
        assert((n + 1) * (b * b) == n * (b * b) + b * b) by (nonlinear_arith);
    }
}

pub proof fn lemma_sum_sq_dev_nonneg(s: Seq<int>, a: int, b: int)
    ensures
        sum_sq_dev(s, a, b) >= 0,
    decreases s.len(),
{
    if s.len() > 0 {
        lemma_sum_sq_dev_nonneg(s.drop_last(), a, b);
        let d = a * s.last() - b;
        assert(d * d >= 0) by (nonlinear_arith);
    }
}

/// n·Σx² − (Σx)² == Σ (n·x − Σx)² / n, which is never negative.
pub proof fn lemma_spread(s: Seq<int>)
    requires
        s.len() > 0,
    ensures
        s.len() * sum_sq_dev(s, s.len() as int, sum(s)) == s.len() * s.len() * (s.len()
            * sum_sq(s) - sum(s) * sum(s)),
        s.len() * sum_sq(s) - sum(s) * sum(s) >= 0,
{
    let n = s.len() as int;
    let (q, p) = (sum_sq(s), sum(s));
    lemma_sum_sq_dev_expand(s, n, p);
    lemma_sum_sq_dev_nonneg(s, n, p);
    let d = sum_sq_dev(s, n, p);
    assert(d == n * (n * q - p * p)) by (nonlinear_arith)
        requires
            d == n * n * q - 2 * n * p * p + n * (p * p),
    ;
    assert(n * d == n * n * (n * q - p * p)) by (nonlinear_arith)
        requires
            d == n * (n * q - p * p),
    ;
    assert(n * q - p * p >= 0) by (nonlinear_arith)
        requires
            d == n * (n * q - p * p),
            d >= 0,
            n > 0,
    ;
}

} // verus!

verus! {

pub proof fn lemma_sum_constant(s: Seq<int>, v: int)
    requires
        forall|i: int| 0 <= i < s.len() ==> s[i] == v,
    ensures
        sum(s) == s.len() * v,
        sum_sq(s) == s.len() * (v * v),
    decreases s.len(),
{
    if s.len() > 0 {
        let t = s.drop_last();
        assert forall|i: int| 0 <= i < t.len() implies t[i] == v by {
            assert(t[i] == s[i]);
        }
        lemma_sum_constant(t, v);
        assert(s.last() == s[s.len() - 1]);
        assert(s.len() * v == t.len() * v + v) by (nonlinear_arith)
            requires
                s.len() == t.len() + 1,
        ;
        assert(s.len() * (v * v) == t.len() * (v * v) + v * v) by (nonlinear_arith)
            requires
                s.len() == t.len() + 1,
        ;
    }
}

} // verus!
