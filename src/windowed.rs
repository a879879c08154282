use std::collections::VecDeque;
use vstd::prelude::*;

use crate::seqmath::{
    all_within, ints, lemma_spread, lemma_sum_constant, lemma_sum_bounds, lemma_sum_first, lemma_sum_push, sum,
    sum_sq, sum_sq_dev,
};

verus! {

/// Largest band level the statistics take: levels are 24-bit fixed-point values.
pub const MAX_LEVEL: u32 = 16777215;

/// Largest sliding-window size.
pub const MAX_WINDOW: u64 = 1024;

/// Mathematical state of the sliding-window statistics of one band.
pub struct WindowModel {
    /// Number of cycles `W` the window spans.
    pub size: int,
    /// The retained levels, oldest first: the last `min(n, W)` of the `n` seen.
    pub window: Seq<int>,
}

impl WindowModel {
    pub open spec fn valid(self) -> bool {
        &&& 1 <= self.size <= MAX_WINDOW
        &&& self.window.len() <= self.size
        &&& all_within(self.window, MAX_LEVEL as int)
    }

    /// The window holds `W` levels: the warm-up is over.
    pub open spec fn warmed_up(self) -> bool {
        self.window.len() == self.size
    }

    /// The windowed mean is `mean_num() / W`. During the warm-up it is the
    /// partial accumulation Σx / W.
    pub open spec fn mean_num(self) -> int {
        sum(self.window)
    }

    /// The windowed variance is `var_num() / W²`: Σx²/W − (Σx/W)² once warmed
    /// up, the accumulated second moment Σx²/W before.
    pub open spec fn var_num(self) -> int {
        if self.warmed_up() {
            self.size * sum_sq(self.window) - sum(self.window) * sum(self.window)
        } else {
            self.size * sum_sq(self.window)
        }
    }

    /// The model after one more level: it enters the window, and the oldest
    /// leaves once the window is full.
    pub open spec fn step(self, level: int) -> WindowModel {
        WindowModel {
            size: self.size,
            window: if self.window.len() < self.size {
                self.window.push(level)
            } else {
                self.window.subrange(1, self.window.len() as int).push(level)
            },
        }
    }
}

/// The window model of size `w` after the levels `xs`, from an empty window.
pub open spec fn windowed_after(w: int, xs: Seq<int>) -> WindowModel
    decreases xs.len(),
{
    if xs.len() == 0 {
        WindowModel { size: w, window: Seq::empty() }
    } else {
        windowed_after(w, xs.drop_last()).step(xs.last())
    }
}

pub proof fn lemma_window_var_bounds(m: WindowModel)
    requires
        m.valid(),
    ensures
        0 <= m.mean_num() <= m.size * MAX_LEVEL,
        0 <= m.var_num(),
        m.var_num() + m.mean_num() * m.mean_num() <= 2 * (m.size * m.size) * (MAX_LEVEL
            * MAX_LEVEL),
{
    let hi = MAX_LEVEL as int;
    let (n, w) = (m.window.len() as int, m.size);
    lemma_sum_bounds(m.window, hi);
    let (p, q) = (sum(m.window), sum_sq(m.window));
    assert(p <= w * hi) by (nonlinear_arith)
        requires
            p <= n * hi,
            n <= w,
            0 <= hi,
    ;
    assert(q <= w * (hi * hi)) by (nonlinear_arith)
        requires
            q <= n * (hi * hi),
            n <= w,
    ;
    assert(w * q <= w * (w * (hi * hi))) by (nonlinear_arith)
        requires
            q <= w * (hi * hi),
            w >= 1,
    ;
    assert(p * p <= (w * hi) * (w * hi)) by (nonlinear_arith)
        requires
            0 <= p <= w * hi,
    ;
    assert((w * hi) * (w * hi) == (w * w) * (hi * hi)) by (nonlinear_arith);
    assert(w * (w * (hi * hi)) == (w * w) * (hi * hi)) by (nonlinear_arith);
    assert(0 <= w * q) by (nonlinear_arith)
        requires
            w >= 1,
            q >= 0,
    ;
    if m.warmed_up() {
        lemma_spread(m.window);
    }
}

/// Sliding-window mean and variance of one band's level, updated
/// incrementally from the level that enters and the one that leaves.
pub struct WindowedStats {
    size: u64,
    window: VecDeque<u32>,
    mean_num: u64,
    var_num: u128,
}

impl WindowedStats {
    pub closed spec fn view(&self) -> WindowModel {
        WindowModel { size: self.size as int, window: ints(self.window@) }
    }

    pub closed spec fn inv(&self) -> bool {
        &&& self.mean_num as int == self@.mean_num()
        &&& self.var_num as int == self@.var_num()
    }

    pub open spec fn wf(&self) -> bool {
        self.inv() && self@.valid()
    }

    /// Empty statistics over a window of `size` cycles.
    pub fn new(size: u64) -> (r: WindowedStats)
        requires
            1 <= size <= MAX_WINDOW,
        ensures
            r.wf(),
            r@ == (WindowModel { size: size as int, window: Seq::empty() }),
    {
        let r = WindowedStats { size, window: VecDeque::new(), mean_num: 0, var_num: 0 };
        assert(r@.window =~= Seq::empty());
        r
    }

    /// Numerator of the windowed mean, over `W`.
    pub fn mean_num(&self) -> (r: u64)
        requires
            self.wf(),
        ensures
            r == self@.mean_num(),
    {
        self.mean_num
    }

    /// Numerator of the windowed variance, over `W²`.
    pub fn var_num(&self) -> (r: u128)
        requires
            self.wf(),
        ensures
            r == self@.var_num(),
    {
        self.var_num
    }

    /// The window size `W`.
    pub fn size(&self) -> (r: u64)
        requires
            self.wf(),
        ensures
            r == self@.size,
    {
        self.size
    }

    /// Takes in one level. During the warm-up the level is added to the
    /// accumulated mean and second moment, which become a variance when the
    /// window fills; afterwards the oldest level leaves and both are moved by
    /// the difference: `mean += (x − oldest)/W`,
    /// `var += (x² − oldest²)/W + (old_mean² − new_mean²)`, clamped at zero.
    pub fn update(&mut self, level: u32)
        requires
            old(self).wf(),
            level <= MAX_LEVEL,
        ensures
            final(self).wf(),
            final(self)@ == old(self)@.step(level as int),
    {
        let ghost m0 = self@;
        let ghost s0 = m0.window;
        let w = self.size as u128;
        let x = level as u128;
        proof {
            lemma_window_var_bounds(m0);
            lemma_sum_bounds(s0, MAX_LEVEL as int);
            let ww = m0.size;
            assert(2 * (ww * ww) * (MAX_LEVEL * MAX_LEVEL) <= 2 * (MAX_WINDOW * MAX_WINDOW) * (
            MAX_LEVEL * MAX_LEVEL)) by (nonlinear_arith)
                requires
                    1 <= ww <= MAX_WINDOW,
            ;
        }
        if (self.window.len() as u64) < self.size {
            self.window.push_back(level);
            proof {
                assert(ints(self.window@) =~= s0.push(level as int));
                lemma_sum_push(s0, level as int);
                assert(s0.len() * (MAX_LEVEL * MAX_LEVEL) <= MAX_WINDOW * (MAX_LEVEL * MAX_LEVEL))
                    by (nonlinear_arith)
                    requires
                        s0.len() <= MAX_WINDOW,
                ;
                assert(w * sum_sq(s0) <= MAX_WINDOW * (MAX_WINDOW * (MAX_LEVEL * MAX_LEVEL)))
                    by (nonlinear_arith)
                    requires
                        w <= MAX_WINDOW,
                        0 <= sum_sq(s0) <= MAX_WINDOW * (MAX_LEVEL * MAX_LEVEL),
                ;
                assert(w * x <= MAX_WINDOW * MAX_LEVEL) by (nonlinear_arith)
                    requires
                        w <= MAX_WINDOW,
                        x <= MAX_LEVEL,
                ;
                assert(w * x * x <= MAX_WINDOW * (MAX_LEVEL * MAX_LEVEL)) by (nonlinear_arith)
                    requires
                        w <= MAX_WINDOW,
                        x <= MAX_LEVEL,
                ;
                assert(w * (sum_sq(s0) + x * x) == w * sum_sq(s0) + w * x * x)
                    by (nonlinear_arith);
            }
            self.mean_num = self.mean_num + level as u64;
            self.var_num = self.var_num + w * x * x;
            if self.window.len() as u64 == self.size {
                proof {
                    lemma_spread(self@.window);
                }
                let s = self.mean_num as u128;
                self.var_num = self.var_num - s * s;
            }
        } else {
            let oldest = self.window.pop_front().unwrap();
            self.window.push_back(level);
            let ghost rest = s0.subrange(1, s0.len() as int);
            let ghost s1 = rest.push(level as int);
            let o = oldest as u128;
            proof {
                assert(ints(self.window@) =~= s1);
                lemma_sum_first(s0);
                lemma_sum_push(rest, level as int);
                lemma_sum_bounds(rest, MAX_LEVEL as int);
                lemma_spread(s1);
                assert(oldest as int == s0[0]);
            }
            let old_mean = self.mean_num as u128;
            let new_mean = (self.mean_num - oldest as u64) as u128 + x;
            proof {
                assert(0 <= s0[0] <= MAX_LEVEL);
                assert(w * x <= MAX_WINDOW * MAX_LEVEL) by (nonlinear_arith)
                    requires
                        w <= MAX_WINDOW,
                        x <= MAX_LEVEL,
                ;
                assert(w * x * x <= MAX_WINDOW * (MAX_LEVEL * MAX_LEVEL)) by (nonlinear_arith)
                    requires
                        w <= MAX_WINDOW,
                        x <= MAX_LEVEL,
                ;
                assert(w * o <= MAX_WINDOW * MAX_LEVEL) by (nonlinear_arith)
                    requires
                        w <= MAX_WINDOW,
                        o <= MAX_LEVEL,
                ;
                assert(w * o * o <= MAX_WINDOW * (MAX_LEVEL * MAX_LEVEL)) by (nonlinear_arith)
                    requires
                        w <= MAX_WINDOW,
                        o <= MAX_LEVEL,
                ;
                assert(old_mean * old_mean <= (MAX_WINDOW * MAX_LEVEL) * (MAX_WINDOW
                    * MAX_LEVEL)) by (nonlinear_arith)
                    requires
                        old_mean <= MAX_WINDOW * MAX_LEVEL,
                ;
                assert(new_mean == sum(s1));
                lemma_sum_bounds(s1, MAX_LEVEL as int);
                assert(new_mean <= MAX_WINDOW * MAX_LEVEL) by (nonlinear_arith)
                    requires
                        new_mean <= s1.len() * MAX_LEVEL,
                        s1.len() <= MAX_WINDOW,
                ;
                assert(new_mean * new_mean <= (MAX_WINDOW * MAX_LEVEL) * (MAX_WINDOW
                    * MAX_LEVEL)) by (nonlinear_arith)
                    requires
                        new_mean <= MAX_WINDOW * MAX_LEVEL,
                ;
                let (q0, qr) = (sum_sq(s0), sum_sq(rest));
                assert(w * q0 == w * (o * o) + w * qr) by (nonlinear_arith)
                    requires
                        q0 == o * o + qr,
                ;
                assert(w * sum_sq(s1) == w * qr + w * (x * x)) by (nonlinear_arith)
                    requires
                        sum_sq(s1) == qr + x * x,
                ;
                assert(w * (x * x) == w * x * x && w * (o * o) == w * o * o) by (nonlinear_arith);
            }
            let up = self.var_num + w * x * x + old_mean * old_mean;
            let down = w * o * o + new_mean * new_mean;
            self.mean_num = new_mean as u64;
            self.var_num = if up >= down {
                up - down
            } else {
                0
            };
        }
    }
}

} // verus!

verus! {

/// Fed any in-range levels from an empty window, the statistics stay valid and
/// the window holds exactly the last `min(n, W)` of the `n` levels, in order.
pub proof fn lemma_window_holds_latest(w: int, xs: Seq<int>)
    requires
        1 <= w <= MAX_WINDOW,
        all_within(xs, MAX_LEVEL as int),
    ensures
        windowed_after(w, xs).valid(),
        windowed_after(w, xs).size == w,
        windowed_after(w, xs).window == xs.subrange(
            xs.len() - (if xs.len() < w { xs.len() as int } else { w }),
            xs.len() as int,
        ),
    decreases xs.len(),
{
    if xs.len() == 0 {
        assert(xs.subrange(0, 0) =~= Seq::<int>::empty());
    } else {
        let ys = xs.drop_last();
        assert(all_within(ys, MAX_LEVEL as int)) by {
            assert forall|i: int| 0 <= i < ys.len() implies 0 <= #[trigger] ys[i] <= MAX_LEVEL by {
                assert(ys[i] == xs[i]);
            }
        }
        lemma_window_holds_latest(w, ys);
        let m = windowed_after(w, ys);
        let n = xs.len() as int;
        assert(xs.last() == xs[n - 1]);
        if ys.len() < w {
            assert(m.window.push(xs.last()) =~= xs.subrange(0, n));
        } else {
            let k = n - 1 - w;
            assert(m.window.subrange(1, m.window.len() as int).push(xs.last()) =~= xs.subrange(
                k + 1,
                n,
            ));
        }
        let m1 = windowed_after(w, xs);
        assert(all_within(m1.window, MAX_LEVEL as int)) by {
            assert forall|i: int| 0 <= i < m1.window.len() implies 0 <= #[trigger] m1.window[i]
                <= MAX_LEVEL by {
                let start = n - (if n < w { n } else { w });
                assert(m1.window[i] == xs[start + i]);
            }
        }
    }
}

/// Once `W` levels have been seen, the incrementally kept windowed mean and
/// variance are those computed afresh from the last `W` levels:
/// mean = Σx / W and variance = Σ (x − mean)² / W, that is
/// `var_num / W² == Σ (W·x − Σx)² / W³`.
pub proof fn lemma_windowed_matches_recomputation(w: int, xs: Seq<int>)
    requires
        1 <= w <= MAX_WINDOW,
        all_within(xs, MAX_LEVEL as int),
        xs.len() >= w,
    ensures
        windowed_after(w, xs).warmed_up(),
        windowed_after(w, xs).mean_num() == sum(xs.subrange(xs.len() - w, xs.len() as int)),
        w * windowed_after(w, xs).var_num() == sum_sq_dev(
            xs.subrange(xs.len() - w, xs.len() as int),
            w,
            sum(xs.subrange(xs.len() - w, xs.len() as int)),
        ),
{
    lemma_window_holds_latest(w, xs);
    let last = xs.subrange(xs.len() - w, xs.len() as int);
    lemma_spread(last);
    let (d, x) = (
        sum_sq_dev(last, w, sum(last)),
        w * sum_sq(last) - sum(last) * sum(last),
    );
    assert(d == w * x) by (nonlinear_arith)
        requires
            w * d == w * w * x,
            w > 0,
    ;
}

/// The windowed variance is never negative, whatever the levels fed.
pub proof fn lemma_windowed_variance_nonneg(w: int, xs: Seq<int>)
    requires
        1 <= w <= MAX_WINDOW,
        all_within(xs, MAX_LEVEL as int),
    ensures
        windowed_after(w, xs).var_num() >= 0,
{
    lemma_window_holds_latest(w, xs);
    lemma_window_var_bounds(windowed_after(w, xs));
}

/// After `W` cycles of one constant level `v`, the windowed mean is `v` and
/// the windowed variance is zero.
pub proof fn lemma_windowed_constant(w: int, xs: Seq<int>, v: int)
    requires
        1 <= w <= MAX_WINDOW,
        all_within(xs, MAX_LEVEL as int),
        xs.len() >= w,
        forall|i: int| xs.len() - w <= i < xs.len() ==> xs[i] == v,
    ensures
        windowed_after(w, xs).mean_num() == w * v,
        windowed_after(w, xs).var_num() == 0,
{
    lemma_window_holds_latest(w, xs);
    let last = xs.subrange(xs.len() - w, xs.len() as int);
    assert forall|i: int| 0 <= i < last.len() implies last[i] == v by {
        assert(last[i] == xs[xs.len() - w + i]);
    }
    lemma_sum_constant(last, v);
    assert(w * (w * (v * v)) - (w * v) * (w * v) == 0) by (nonlinear_arith);
}

} // verus!
