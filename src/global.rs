use vstd::prelude::*;

use crate::seqmath::{
    all_within, lemma_spread, lemma_sum_constant, lemma_sum_push, sum, sum_sq, sum_sq_dev,
};
use crate::windowed::{MAX_LEVEL, MAX_WINDOW};

verus! {

/// Largest number of cycles the lifetime statistics count.
pub const MAX_CYCLES: u64 = 67108864;

/// Mathematical state of the lifetime statistics of one band. Sums are kept
/// scaled by the window size `W` (and `W²`), so that re-anchoring them to a
/// windowed mean `S / W` and variance `V / W²` stays exact.
pub struct GlobalModel {
    /// The scale `W`.
    pub scale: int,
    /// Cycles counted since the start.
    pub count: int,
    /// `W` times the weighted sum of the levels.
    pub total: int,
    /// `W²` times the weighted sum of the squared levels.
    pub total_sq: int,
}

impl GlobalModel {
    pub open spec fn valid(self) -> bool {
        &&& 1 <= self.scale <= MAX_WINDOW
        &&& 0 <= self.count <= MAX_CYCLES
        &&& 0 <= self.total <= self.scale * self.count * MAX_LEVEL
        &&& 0 <= self.total_sq <= 2 * (self.scale * self.scale) * self.count * (MAX_LEVEL
            * MAX_LEVEL)
        &&& self.total * self.total <= self.count * self.total_sq
        &&& self.count == 0 ==> self.total == 0 && self.total_sq == 0
    }

    /// Numerator of the lifetime mean.
    pub open spec fn mean_num(self) -> int {
        self.total
    }

    /// Denominator of the lifetime mean.
    pub open spec fn mean_den(self) -> int {
        self.scale * self.count
    }

    /// Numerator of the lifetime variance, `count · Σx² − (Σx)²` in scaled sums.
    pub open spec fn var_num(self) -> int {
        self.count * self.total_sq - self.total * self.total
    }

    /// Denominator of the lifetime variance.
    pub open spec fn var_den(self) -> int {
        (self.scale * self.count) * (self.scale * self.count)
    }

    /// The model after one more level: with `n` the new count, the mean moves
    /// to `(n−1)/n · mean + x/n` and the variance to its exact online update.
    pub open spec fn step(self, level: int) -> GlobalModel {
        GlobalModel {
            scale: self.scale,
            count: self.count + 1,
            total: self.total + self.scale * level,
            total_sq: self.total_sq + self.scale * self.scale * (level * level),
        }
    }

    /// The model re-anchored to a mean `mean_num / W` and a variance
    /// `var_num / W²`, keeping its count.
    pub open spec fn re_anchored(self, mean_num: int, var_num: int) -> GlobalModel {
        GlobalModel {
            scale: self.scale,
            count: self.count,
            total: self.count * mean_num,
            total_sq: self.count * (var_num + mean_num * mean_num),
        }
    }
}

/// The lifetime model of scale `w` after the levels `xs`, from the start.
pub open spec fn global_after(w: int, xs: Seq<int>) -> GlobalModel
    decreases xs.len(),
{
    if xs.len() == 0 {
        GlobalModel { scale: w, count: 0, total: 0, total_sq: 0 }
    } else {
        global_after(w, xs.drop_last()).step(xs.last())
    }
}

proof fn lemma_step_valid(m: GlobalModel, x: int)
    requires
        m.valid(),
        m.count < MAX_CYCLES,
        0 <= x <= MAX_LEVEL,
    ensures
        m.step(x).valid(),
{
    let (s, c, t, q) = (m.scale, m.count, m.total, m.total_sq);
    let hi = MAX_LEVEL as int;
    assert(t + s * x <= s * (c + 1) * hi) by (nonlinear_arith)
        requires
            t <= s * c * hi,
            0 <= x <= hi,
            s >= 1,
    ;
    assert(0 <= s * x) by (nonlinear_arith)
        requires
            s >= 1,
            x >= 0,
    ;
    assert(0 <= s * s * (x * x) <= s * s * (hi * hi)) by (nonlinear_arith)
        requires
            0 <= x <= hi,
            s >= 1,
    ;
    assert(q + s * s * (x * x) <= 2 * (s * s) * (c + 1) * (hi * hi)) by (nonlinear_arith)
        requires
            q <= 2 * (s * s) * c * (hi * hi),
            s * s * (x * x) <= s * s * (hi * hi),
    ;
    let e = q + c * (s * s * (x * x)) - 2 * t * (s * x);
    if c == 0 {
        assert(e == 0) by (nonlinear_arith)
            requires
                c == 0,
                t == 0,
                q == 0,
                e == q + c * (s * s * (x * x)) - 2 * t * (s * x),
        ;
    } else {
        let y = s * x;
        let z = c * y;
        assert(s * s * (x * x) == y * y) by (nonlinear_arith)
            requires
                y == s * x,
        ;
        assert(c * e == c * q + z * z - 2 * t * z) by (nonlinear_arith)
            requires
                e == q + c * (y * y) - 2 * t * y,
                z == c * y,
        ;
        assert((t - z) * (t - z) >= 0) by (nonlinear_arith);
        assert(c * e >= 0) by (nonlinear_arith)
            requires
                c * e == c * q + z * z - 2 * t * z,
                t * t <= c * q,
                (t - z) * (t - z) >= 0,
        ;
        assert(e >= 0) by (nonlinear_arith)
            requires
                c * e >= 0,
                c > 0,
        ;
    }
    assert((t + s * x) * (t + s * x) <= (c + 1) * (q + s * s * (x * x))) by (nonlinear_arith)
        requires
            e == q + c * (s * s * (x * x)) - 2 * t * (s * x),
            e >= 0,
            t * t <= c * q,
    ;
}

proof fn lemma_model_bounds(m: GlobalModel)
    requires
        m.valid(),
    ensures
        m.total <= MAX_WINDOW * MAX_CYCLES * MAX_LEVEL,
        m.total_sq <= 2 * (MAX_WINDOW * MAX_WINDOW) * MAX_CYCLES * (MAX_LEVEL * MAX_LEVEL),
{
    let (s, c) = (m.scale, m.count);
    assert(s * c * MAX_LEVEL <= MAX_WINDOW * MAX_CYCLES * MAX_LEVEL) by (nonlinear_arith)
        requires
            1 <= s <= MAX_WINDOW,
            0 <= c <= MAX_CYCLES,
    ;
    assert(2 * (s * s) * c * (MAX_LEVEL * MAX_LEVEL) <= 2 * (MAX_WINDOW * MAX_WINDOW) * MAX_CYCLES
        * (MAX_LEVEL * MAX_LEVEL)) by (nonlinear_arith)
        requires
            1 <= s <= MAX_WINDOW,
            0 <= c <= MAX_CYCLES,
    ;
}

/// Lifetime mean and variance of one band's level, updated online on every
/// cycle and never windowed.
pub struct GlobalStats {
    scale: u64,
    count: u64,
    total: u128,
    total_sq: u128,
}

impl GlobalStats {
    pub closed spec fn view(&self) -> GlobalModel {
        GlobalModel {
            scale: self.scale as int,
            count: self.count as int,
            total: self.total as int,
            total_sq: self.total_sq as int,
        }
    }

    pub open spec fn wf(&self) -> bool {
        self@.valid()
    }

    /// Statistics that have seen nothing, at scale `W`.
    pub fn new(scale: u64) -> (r: GlobalStats)
        requires
            1 <= scale <= MAX_WINDOW,
        ensures
            r.wf(),
            r@ == (GlobalModel { scale: scale as int, count: 0, total: 0, total_sq: 0 }),
    {
        GlobalStats { scale, count: 0, total: 0, total_sq: 0 }
    }

    /// Cycles counted so far.
    pub fn count(&self) -> (r: u64)
        requires
            self.wf(),
        ensures
            r == self@.count,
    {
        self.count
    }

    /// Numerator of the lifetime mean, over `W · count`.
    pub fn mean_num(&self) -> (r: u128)
        requires
            self.wf(),
        ensures
            r == self@.mean_num(),
    {
        self.total
    }

    /// Numerator of the lifetime variance, over `(W · count)²`.
    pub fn var_num(&self) -> (r: u128)
        requires
            self.wf(),
        ensures
            r == self@.var_num(),
    {
        proof {
            let (c, q, t) = (self@.count, self@.total_sq, self@.total);
            assert(c * q <= MAX_CYCLES * (2 * (MAX_WINDOW * MAX_WINDOW) * MAX_CYCLES * (MAX_LEVEL
                * MAX_LEVEL))) by (nonlinear_arith)
                requires
                    0 <= c <= MAX_CYCLES,
                    0 <= q <= 2 * (self@.scale * self@.scale) * c * (MAX_LEVEL * MAX_LEVEL),
                    1 <= self@.scale <= MAX_WINDOW,
            ;
        }
        (self.count as u128) * self.total_sq - self.total * self.total
    }

    /// Takes in one level: the count grows by one and the level enters the
    /// running mean and variance with weight `1 / count`.
    pub fn update(&mut self, level: u32)
        requires
            old(self).wf(),
            old(self)@.count < MAX_CYCLES,
            level <= MAX_LEVEL,
        ensures
            final(self).wf(),
            final(self)@ == old(self)@.step(level as int),
    {
        proof {
            lemma_step_valid(self@, level as int);
            let (s, x) = (self@.scale, level as int);
            assert(s * x <= MAX_WINDOW * MAX_LEVEL) by (nonlinear_arith)
                requires
                    1 <= s <= MAX_WINDOW,
                    0 <= x <= MAX_LEVEL,
            ;
            assert(s * s <= MAX_WINDOW * MAX_WINDOW) by (nonlinear_arith)
                requires
                    1 <= s <= MAX_WINDOW,
            ;
            assert(s * s * x <= MAX_WINDOW * MAX_WINDOW * MAX_LEVEL) by (nonlinear_arith)
                requires
                    1 <= s <= MAX_WINDOW,
                    0 <= x <= MAX_LEVEL,
            ;
            assert(s * s * x * x == s * s * (x * x)) by (nonlinear_arith);
            assert(s * s * x * x <= MAX_WINDOW * MAX_WINDOW * (MAX_LEVEL * MAX_LEVEL))
                by (nonlinear_arith)
                requires
                    1 <= s <= MAX_WINDOW,
                    0 <= x <= MAX_LEVEL,
            ;
            lemma_model_bounds(self@);
        }
        let s = self.scale as u128;
        let x = level as u128;
        self.count = self.count + 1;
        self.total = self.total + s * x;
        self.total_sq = self.total_sq + s * s * x * x;
    }

    /// Re-anchors the lifetime statistics to a windowed mean `mean_num / W`
    /// and variance `var_num / W²`: afterwards the lifetime mean and variance
    /// are exactly those, and later levels keep the weight `1 / count`.
    pub fn re_anchor(&mut self, mean_num: u64, var_num: u128)
        requires
            old(self).wf(),
            mean_num <= old(self)@.scale * MAX_LEVEL,
            var_num + mean_num * mean_num <= 2 * (old(self)@.scale * old(self)@.scale) * (
            MAX_LEVEL * MAX_LEVEL),
        ensures
            final(self).wf(),
            final(self)@ == old(self)@.re_anchored(mean_num as int, var_num as int),
            final(self)@.mean_num() * final(self)@.scale == mean_num * final(self)@.mean_den(),
            final(self)@.var_num() * (final(self)@.scale * final(self)@.scale) == var_num
                * final(self)@.var_den(),
    {
        let ghost m = self@;
        let c = self.count as u128;
        let s = mean_num as u128;
        proof {
            let (w, cc, ss, v) = (m.scale, m.count, mean_num as int, var_num as int);
            let hi = MAX_LEVEL as int;
            assert(cc * ss <= w * cc * hi) by (nonlinear_arith)
                requires
                    ss <= w * hi,
                    cc >= 0,
            ;
            assert(0 <= cc * ss) by (nonlinear_arith)
                requires
                    ss >= 0,
                    cc >= 0,
            ;
            assert(cc * (v + ss * ss) <= 2 * (w * w) * cc * (hi * hi)) by (nonlinear_arith)
                requires
                    v + ss * ss <= 2 * (w * w) * (hi * hi),
                    cc >= 0,
            ;
            assert(0 <= cc * (v + ss * ss)) by (nonlinear_arith)
                requires
                    v >= 0,
                    cc >= 0,
            ;
            assert((cc * ss) * (cc * ss) <= cc * (cc * (v + ss * ss))) by (nonlinear_arith)
                requires
                    v >= 0,
                    cc >= 0,
            ;
            assert(cc == 0 ==> cc * ss == 0 && cc * (v + ss * ss) == 0) by (nonlinear_arith);
            assert(cc * (cc * (v + ss * ss)) - (cc * ss) * (cc * ss) == v * (cc * cc))
                by (nonlinear_arith);
            assert(v * (cc * cc) * (w * w) == v * ((w * cc) * (w * cc))) by (nonlinear_arith);
            assert(cc * ss * w == ss * (w * cc)) by (nonlinear_arith);
            assert(w * cc * hi <= MAX_WINDOW * MAX_CYCLES * hi) by (nonlinear_arith)
                requires
                    hi >= 0,
                    1 <= w <= MAX_WINDOW,
                    0 <= cc <= MAX_CYCLES,
            ;
            assert(2 * (w * w) * cc * (hi * hi) <= 2 * (MAX_WINDOW * MAX_WINDOW) * MAX_CYCLES * (hi
                * hi)) by (nonlinear_arith)
                requires
                    hi >= 0,
                    1 <= w <= MAX_WINDOW,
                    0 <= cc <= MAX_CYCLES,
            ;
            assert(2 * (w * w) * (hi * hi) <= 2 * (MAX_WINDOW * MAX_WINDOW) * (hi * hi))
                by (nonlinear_arith)
                requires
                    1 <= w <= MAX_WINDOW,
            ;
        }
        self.total = c * s;
        self.total_sq = c * (var_num + s * s);
    }
}

/// From the start and with no re-anchoring, the online lifetime statistics
/// are those computed afresh from the whole history of `n` levels:
/// mean = Σx / n and variance = Σ (x − mean)² / n = Σ (n·x − Σx)² / n³.
pub proof fn lemma_global_matches_history(w: int, xs: Seq<int>)
    requires
        1 <= w <= MAX_WINDOW,
        xs.len() <= MAX_CYCLES,
        all_within(xs, MAX_LEVEL as int),
    ensures
        global_after(w, xs).valid(),
        global_after(w, xs).scale == w,
        global_after(w, xs).count == xs.len(),
        global_after(w, xs).total == w * sum(xs),
        global_after(w, xs).total_sq == w * w * sum_sq(xs),
        global_after(w, xs).mean_num() * xs.len() == sum(xs) * global_after(w, xs).mean_den(),
        global_after(w, xs).var_num() * (xs.len() * xs.len() * xs.len()) == sum_sq_dev(
            xs,
            xs.len() as int,
            sum(xs),
        ) * global_after(w, xs).var_den(),
    decreases xs.len(),
{
    let n = xs.len() as int;
    let g = global_after(w, xs);
    if n > 0 {
        let ys = xs.drop_last();
        assert(all_within(ys, MAX_LEVEL as int)) by {
            assert forall|i: int| 0 <= i < ys.len() implies 0 <= #[trigger] ys[i] <= MAX_LEVEL by {
                assert(ys[i] == xs[i]);
            }
        }
        lemma_global_matches_history(w, ys);
        assert(xs =~= ys.push(xs.last()));
        lemma_sum_push(ys, xs.last());
        assert(0 <= xs.last() <= MAX_LEVEL) by {
            assert(xs.last() == xs[n - 1]);
        }
        lemma_step_valid(global_after(w, ys), xs.last());
        let (p, q, x) = (sum(ys), sum_sq(ys), xs.last());
        assert(w * p + w * x == w * (p + x)) by (nonlinear_arith);
        assert(w * w * q + w * w * (x * x) == w * w * (q + x * x)) by (nonlinear_arith);
        let (pp, qq) = (sum(xs), sum_sq(xs));
        assert(g.mean_num() * n == pp * g.mean_den()) by (nonlinear_arith)
            requires
                g.mean_num() == w * pp,
                g.mean_den() == w * n,
        ;
        lemma_spread(xs);
        let d = sum_sq_dev(xs, n, pp);
        let big_x = n * qq - pp * pp;
        assert(d == n * big_x) by (nonlinear_arith)
            requires
                n * d == n * n * big_x,
                n > 0,
        ;
        assert(g.var_num() == w * w * big_x) by (nonlinear_arith)
            requires
                g.var_num() == n * (w * w * qq) - (w * pp) * (w * pp),
                big_x == n * qq - pp * pp,
        ;
        assert(g.var_num() * (n * n * n) == d * g.var_den()) by (nonlinear_arith)
            requires
                d == n * big_x,
                g.var_num() == w * w * big_x,
                g.var_den() == (w * n) * (w * n),
        ;
    }
}

/// Fed only the constant level `v` from the start, the lifetime mean is `v`
/// and the lifetime variance zero.
pub proof fn lemma_global_constant(w: int, xs: Seq<int>, v: int)
    requires
        1 <= w <= MAX_WINDOW,
        xs.len() <= MAX_CYCLES,
        all_within(xs, MAX_LEVEL as int),
        forall|i: int| 0 <= i < xs.len() ==> xs[i] == v,
    ensures
        global_after(w, xs).mean_num() == v * global_after(w, xs).mean_den(),
        global_after(w, xs).var_num() == 0,
{
    lemma_global_matches_history(w, xs);
    lemma_sum_constant(xs, v);
    let n = xs.len() as int;
    assert(w * (n * v) == v * (w * n)) by (nonlinear_arith);
    assert(n * (w * w * (n * (v * v))) - (w * (n * v)) * (w * (n * v)) == 0) by (nonlinear_arith);
}

} // verus!
