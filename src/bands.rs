use vstd::prelude::*;

verus! {

/// `b` to the power `e`.
pub open spec fn power(b: int, e: nat) -> int
    decreases e,
{
    if e == 0 {
        1
    } else {
        b * power(b, (e - 1) as nat)
    }
}

proof fn lemma_power_nonneg(b: int, e: nat)
    requires
        b >= 0,
    ensures
        power(b, e) >= 0,
        b >= 1 ==> power(b, e) >= 1,
    decreases e,
{
    if e > 0 {
        lemma_power_nonneg(b, (e - 1) as nat);
        let p = power(b, (e - 1) as nat);
        assert(b * p >= 0) by (nonlinear_arith)
            requires
                b >= 0,
                p >= 0,
        ;
        assert(b >= 1 ==> b * p >= 1) by (nonlinear_arith)
            requires
                b >= 1 ==> p >= 1,
                b >= 0,
        ;
    }
}

proof fn lemma_power_mono_base(a: int, b: int, e: nat)
    requires
        0 <= a <= b,
    ensures
        power(a, e) <= power(b, e),
    decreases e,
{
    if e > 0 {
        lemma_power_mono_base(a, b, (e - 1) as nat);
        lemma_power_nonneg(a, (e - 1) as nat);
        let (pa, pb) = (power(a, (e - 1) as nat), power(b, (e - 1) as nat));
        assert(a * pa <= b * pb) by (nonlinear_arith)
            requires
                0 <= a <= b,
                0 <= pa <= pb,
        ;
    }
}

proof fn lemma_power_strict_base(a: int, b: int, e: nat)
    requires
        0 <= a < b,
        e >= 1,
    ensures
        power(a, e) < power(b, e),
    decreases e,
{
    let e1 = (e - 1) as nat;
    lemma_power_mono_base(a, b, e1);
    lemma_power_nonneg(a, e1);
    lemma_power_nonneg(b, e1);
    let (pa, pb) = (power(a, e1), power(b, e1));
    assert(a * pa < b * pb) by (nonlinear_arith)
        requires
            0 <= a < b,
            0 <= pa <= pb,
            pb >= 1,
    ;
}

proof fn lemma_power_mono_exp(b: int, e1: nat, e2: nat)
    requires
        b >= 1,
        e1 <= e2,
    ensures
        power(b, e1) <= power(b, e2),
    decreases e2,
{
    if e1 < e2 {
        let e = (e2 - 1) as nat;
        lemma_power_mono_exp(b, e1, e);
        lemma_power_nonneg(b, e);
        let p = power(b, e);
        assert(p <= b * p) by (nonlinear_arith)
            requires
                b >= 1,
                p >= 0,
        ;
    }
}

proof fn lemma_power_mul(a: int, b: int, e: nat)
    ensures
        power(a, e) * power(b, e) == power(a * b, e),
    decreases e,
{
    if e > 0 {
        let e1 = (e - 1) as nat;
        lemma_power_mul(a, b, e1);
        let (pa, pb) = (power(a, e1), power(b, e1));
        assert((a * pa) * (b * pb) == (a * b) * (pa * pb)) by (nonlinear_arith);
    }
}

proof fn lemma_power_add(b: int, e1: nat, e2: nat)
    ensures
        power(b, e1) * power(b, e2) == power(b, e1 + e2),
    decreases e2,
{
    if e2 > 0 {
        let e = (e2 - 1) as nat;
        lemma_power_add(b, e1, e);
        assert((e1 + e2 - 1) as nat == e1 + e);
        let (p1, p) = (power(b, e1), power(b, e));
        assert(p1 * (b * p) == b * (p1 * p)) by (nonlinear_arith);
    }
}

/// `b` to the power `e`, or `None` where it does not fit in 128 bits.
pub fn checked_power(b: u128, e: u32) -> (r: Option<u128>)
    ensures
        r == (if power(b as int, e as nat) <= u128::MAX {
            Some(power(b as int, e as nat) as u128)
        } else {
            None
        }),
{
    let mut acc: u128 = 1;
    let mut j: u32 = 0;
    while j < e
        invariant
            j <= e,
            acc == power(b as int, j as nat),
        decreases e - j,
    {
        proof {
            lemma_power_nonneg(b as int, j as nat);
        }
        assert(acc * b == b * power(b as int, j as nat)) by (nonlinear_arith)
            requires
                acc == power(b as int, j as nat),
        ;
        assert(power(b as int, (j + 1) as nat) == b * power(b as int, j as nat));
        match acc.checked_mul(b) {
            Some(v) => {
                acc = v;
                j = j + 1;
            },
            None => {
                proof {
                    assert(b >= 1) by (nonlinear_arith)
                        requires
                            acc * b > u128::MAX,
                            b >= 0,
                    ;
                    lemma_power_mono_exp(b as int, (j + 1) as nat, e as nat);
                }
                return None;
            },
        }
    }
    Some(acc)
}

/// `(2·chunk)^n · min^(n−i) · max^i`: the `n`-th power of `2·y_i·sample_rate`,
/// where `y_i = chunk / sample_rate · min · 2^(octaves_per_band · i)` is the
/// bin position of boundary `i`, with `octaves_per_band = log2(max/min) / n`,
/// so that `min · 2^(octaves_per_band · i) = min^((n−i)/n) · max^(i/n)`.
pub open spec fn boundary_target(min_freq: int, max_freq: int, n: nat, chunk: int, i: nat) -> int {
    power(2 * chunk, n) * power(min_freq, (n - i) as nat) * power(max_freq, i)
}

/// `k` is `y_i` rounded to the nearest integer, halves rounded up:
/// `k − 1/2 <= y_i < k + 1/2`, stated with `n`-th powers so that no root is
/// taken.
pub open spec fn is_rounded_boundary(
    k: int,
    min_freq: int,
    max_freq: int,
    n: nat,
    sample_rate: int,
    chunk: int,
    i: nat,
) -> bool {
    &&& k >= 0
    &&& (k == 0 || power((2 * k - 1) * sample_rate, n) <= boundary_target(
        min_freq,
        max_freq,
        n,
        chunk,
        i,
    ))
    &&& boundary_target(min_freq, max_freq, n, chunk, i) < power((2 * k + 1) * sample_rate, n)
}

/// At most one `k` is the rounded position of a boundary.
pub proof fn lemma_rounded_boundary_unique(
    k1: int,
    k2: int,
    min_freq: int,
    max_freq: int,
    n: nat,
    sample_rate: int,
    chunk: int,
    i: nat,
)
    requires
        n >= 1,
        sample_rate > 0,
        is_rounded_boundary(k1, min_freq, max_freq, n, sample_rate, chunk, i),
        is_rounded_boundary(k2, min_freq, max_freq, n, sample_rate, chunk, i),
    ensures
        k1 == k2,
{
    if k1 < k2 {
        assert(0 <= (2 * k1 + 1) * sample_rate <= (2 * k2 - 1) * sample_rate) by (nonlinear_arith)
            requires
                0 <= k1 < k2,
                sample_rate > 0,
        ;
        lemma_power_mono_base((2 * k1 + 1) * sample_rate, (2 * k2 - 1) * sample_rate, n);
    } else if k2 < k1 {
        assert(0 <= (2 * k2 + 1) * sample_rate <= (2 * k1 - 1) * sample_rate) by (nonlinear_arith)
            requires
                0 <= k2 < k1,
                sample_rate > 0,
        ;
        lemma_power_mono_base((2 * k2 + 1) * sample_rate, (2 * k1 - 1) * sample_rate, n);
    }
}

/// The table fits the exact 128-bit computation of `calculate_channel_index`.
pub open spec fn boundary_table_fits(nb_channels: u32, sample_rate: u32, chunck_size: u32) -> bool {
    power(2 * chunck_size * sample_rate, nb_channels as nat) <= u128::MAX
}

proof fn lemma_target_bounds(min_freq: int, max_freq: int, n: nat, chunk: int, i: nat)
    requires
        0 < min_freq <= max_freq,
        chunk >= 1,
        i <= n,
    ensures
        0 <= power(2 * chunk, n) <= power(2 * chunk * max_freq, n),
        0 <= power(min_freq, (n - i) as nat) <= power(2 * chunk * max_freq, n),
        1 <= power(max_freq, i) <= power(2 * chunk * max_freq, n),
        0 <= power(2 * chunk, n) * power(min_freq, (n - i) as nat),
        0 <= boundary_target(min_freq, max_freq, n, chunk, i) <= power(2 * chunk * max_freq, n),
        power(2 * chunk, n) * power(min_freq, (n - i) as nat) <= power(2 * chunk * max_freq, n),
{
    let (a, b, c) = (power(2 * chunk, n), power(min_freq, (n - i) as nat), power(max_freq, i));
    let m = power(max_freq, (n - i) as nat);
    lemma_power_nonneg(2 * chunk, n);
    lemma_power_nonneg(min_freq, (n - i) as nat);
    lemma_power_nonneg(max_freq, i);
    lemma_power_mono_base(min_freq, max_freq, (n - i) as nat);
    lemma_power_add(max_freq, (n - i) as nat, i);
    assert((n - i) as nat + i == n);
    lemma_power_mul(2 * chunk, max_freq, n);
    lemma_power_mono_exp(max_freq, 0, i);
    assert(a * b * c <= a * m * c) by (nonlinear_arith)
        requires
            0 <= b <= m,
            a >= 0,
            c >= 0,
    ;
    assert(a * m * c == a * (m * c)) by (nonlinear_arith);
    assert(max_freq <= 2 * chunk * max_freq && 2 * chunk <= 2 * chunk * max_freq)
        by (nonlinear_arith)
        requires
            chunk >= 1,
            max_freq >= 1,
    ;
    lemma_power_mono_base(2 * chunk, 2 * chunk * max_freq, n);
    lemma_power_mono_base(max_freq, 2 * chunk * max_freq, n);
    lemma_power_mono_exp(max_freq, i, n);
    lemma_power_mono_exp(max_freq, (n - i) as nat, n);
    assert(0 <= a * b * c) by (nonlinear_arith)
        requires
            a >= 0,
            b >= 0,
            c >= 0,
    ;
    assert(0 <= a * b) by (nonlinear_arith)
        requires
            a >= 0,
            b >= 0,
    ;
    assert(a * b <= a * b * c) by (nonlinear_arith)
        requires
            a >= 0,
            b >= 0,
            c >= 1,
    ;
}

/// Frequency-to-bin boundary table of `nb_channels` log-spaced bands between
/// `min_freq` and `max_freq`: entry `i`, for `i` in `0..=nb_channels`, is the
/// bin of `min_freq · 2^(octaves_per_band · i)` in a spectrum of `chunck_size`
/// samples at `sample_rate`, rounded to the nearest bin.
pub fn calculate_channel_index(
    min_freq: u32,
    max_freq: u32,
    nb_channels: u32,
    sample_rate: u32,
    chunck_size: u32,
) -> (r: Vec<usize>)
    requires
        0 < min_freq <= max_freq <= sample_rate,
        0 < nb_channels,
        0 < chunck_size,
        boundary_table_fits(nb_channels, sample_rate, chunck_size),
    ensures
        r@.len() == nb_channels + 1,
        forall|i: int|
            0 <= i <= nb_channels ==> #[trigger] is_rounded_boundary(
                r@[i] as int,
                min_freq as int,
                max_freq as int,
                nb_channels as nat,
                sample_rate as int,
                chunck_size as int,
                i as nat,
            ),
        forall|i: int| 0 <= i <= nb_channels ==> #[trigger] r@[i] <= chunck_size,
{
    let n = nb_channels;
    let sr = sample_rate as u128;
    let chunk = chunck_size as u128;
    let ghost (mn, mx, ch, s) = (min_freq as int, max_freq as int, chunck_size as int, sr as int);
    let ghost top = power(2 * ch * s, n as nat);
    proof {
        assert(0 <= 2 * ch * mx <= 2 * ch * s) by (nonlinear_arith)
            requires
                0 < mx <= s,
                ch >= 1,
        ;
        lemma_power_mono_base(2 * ch * mx, 2 * ch * s, n as nat);
    }
    let mut table: Vec<usize> = Vec::new();
    let mut i: u64 = 0;
    while i <= n as u64
        invariant
            i <= n + 1,
            n == nb_channels,
            table@.len() == i,
            0 < mn <= mx <= s,
            s <= u32::MAX,
            n >= 1,
            1 <= ch <= u32::MAX,
            chunk == ch,
            sr == s,
            mn == min_freq,
            mx == max_freq,
            top == power(2 * ch * s, n as nat),
            top <= u128::MAX,
            power(2 * ch * mx, n as nat) <= top,
            forall|j: int|
                0 <= j < i ==> #[trigger] is_rounded_boundary(
                    table@[j] as int,
                    mn,
                    mx,
                    n as nat,
                    s,
                    ch,
                    j as nat,
                ),
            forall|j: int| 0 <= j < i ==> #[trigger] table@[j] <= ch,
        decreases n + 1 - i,
    {
        let ghost target = boundary_target(mn, mx, n as nat, ch, i as nat);
        proof {
            lemma_target_bounds(mn, mx, n as nat, ch, i as nat);
            assert(power(2 * ch, n as nat) * power(mn, (n - i) as nat) * power(mx, i as nat)
                == target);
        }
        let a = checked_power(2 * chunk, n).unwrap();
        let b = checked_power(min_freq as u128, (n as u64 - i) as u32).unwrap();
        let c = checked_power(max_freq as u128, i as u32).unwrap();
        let target_exec = a * b * c;
        // smallest k whose upper half-bin edge lies beyond the boundary
        let mut k: u128 = 0;
        let mut done = false;
        while !done
            invariant
                0 <= k <= chunk,
                chunk == ch,
                ch <= u32::MAX,
                sr == s,
                0 < s <= u32::MAX,
                target_exec == target,
                0 <= target <= power(2 * ch * mx, n as nat),
                power(2 * ch * mx, n as nat) <= top,
                top == power(2 * ch * s, n as nat),
                top <= u128::MAX,
                k == 0 || power((2 * k - 1) * s, n as nat) <= target,
                n >= 1,
                done ==> (k == chunk || target < power((2 * k + 1) * s, n as nat)),
            decreases (chunk - k) * 2 + if done {
                0int
            } else {
                1int
            },
        {
            if k == chunk {
                done = true;
            } else {
                proof {
                    assert(0 <= (2 * k + 1) * s <= 2 * ch * s) by (nonlinear_arith)
                        requires
                            k < ch,
                            s > 0,
                    ;
                    assert(2 * ch * s <= 2 * u32::MAX * u32::MAX) by (nonlinear_arith)
                        requires
                            0 <= ch <= u32::MAX,
                            0 <= s <= u32::MAX,
                    ;
                    lemma_power_mono_base((2 * k + 1) * s, 2 * ch * s, n as nat);
                }
                let arg = (2 * k + 1) * sr;
                assert(arg as int == (2 * k + 1) * s);
                proof {
                    lemma_power_nonneg((2 * k + 1) * s, n as nat);
                }
                let p = checked_power(arg, n).unwrap();
                assert(p as int == power((2 * k + 1) * s, n as nat));
                if p <= target_exec {
                    k = k + 1;
                } else {
                    assert(target < power((2 * k + 1) * s, n as nat));
                    done = true;
                }
            }
        }
        proof {
            if k == chunk {
                assert(2 * ch * s < (2 * k + 1) * s) by (nonlinear_arith)
                    requires
                        k == ch,
                        s > 0,
                ;
                assert(0 <= 2 * ch * s) by (nonlinear_arith)
                    requires
                        ch >= 0,
                        s > 0,
                ;
                lemma_power_strict_base(2 * ch * s, (2 * k + 1) * s, n as nat);
            }
        }
        table.push(k as usize);
        i = i + 1;
    }
    table
}

/// Σ spectrum[j] for `lo <= j < hi`.
pub open spec fn bin_sum(spectrum: Seq<u32>, lo: int, hi: int) -> int
    decreases hi - lo,
{
    if hi <= lo {
        0
    } else {
        bin_sum(spectrum, lo, hi - 1) + spectrum[hi - 1]
    }
}

/// Level of band `b`: the sum of the bin magnitudes strictly above bin
/// `limits[b]` and below bin `limits[b + 1]`.
pub open spec fn band_level(spectrum: Seq<u32>, limits: Seq<usize>, b: int) -> int {
    bin_sum(spectrum, limits[b] + 1, limits[b + 1] as int)
}

/// The boundary table can be applied to the spectrum: it has at least one
/// entry and no band reaches past the last bin.
pub open spec fn limits_fit(spectrum_len: int, limits: Seq<usize>) -> bool {
    &&& limits.len() >= 1
    &&& forall|i: int| 0 <= i < limits.len() ==> #[trigger] limits[i] <= spectrum_len
}

proof fn lemma_bin_sum_bounds(spectrum: Seq<u32>, lo: int, hi: int)
    ensures
        0 <= bin_sum(spectrum, lo, hi),
        hi >= lo ==> bin_sum(spectrum, lo, hi) <= (hi - lo) * u32::MAX,
    decreases hi - lo,
{
    if hi > lo {
        lemma_bin_sum_bounds(spectrum, lo, hi - 1);
    }
}

/// One level per band: entry `b` sums the magnitudes of the bins `j` with
/// `limits[b] < j < limits[b + 1]`. The bin of each lower boundary (the DC
/// bin for the first band) is left out of every sum.
pub fn band_levels(spectrum: &Vec<u32>, limits: &Vec<usize>) -> (r: Vec<u64>)
    requires
        limits_fit(spectrum@.len() as int, limits@),
        spectrum@.len() < u32::MAX,
    ensures
        r@.len() == limits@.len() - 1,
        forall|b: int| 0 <= b < r@.len() ==> #[trigger] r@[b] == band_level(spectrum@, limits@, b),
{
    let mut levels: Vec<u64> = Vec::new();
    let nb = limits.len() - 1;
    let mut b: usize = 0;
    while b < nb
        invariant
            nb == limits@.len() - 1,
            limits_fit(spectrum@.len() as int, limits@),
            spectrum@.len() < u32::MAX,
            b <= limits@.len() - 1,
            levels@.len() == b,
            forall|j: int| 0 <= j < b ==> #[trigger] levels@[j] == band_level(spectrum@, limits@, j),
        decreases limits@.len() - b,
    {
        proof {
            assert(limits@[b + 1] <= spectrum@.len());
            assert(limits@[b as int] <= spectrum@.len());
        }
        let lb = limits[b];
        assert(lb <= spectrum@.len());
        let lo = lb + 1;
        let hi = limits[b + 1];
        let mut acc: u64 = 0;
        let mut j: usize = lo;
        if lo < hi {
            while j < hi
                invariant
                    lo <= j <= hi,
                    hi <= spectrum@.len(),
                    spectrum@.len() < u32::MAX,
                    acc == bin_sum(spectrum@, lo as int, j as int),
                decreases hi - j,
            {
                proof {
                    lemma_bin_sum_bounds(spectrum@, lo as int, j as int);
                    assert((j - lo) * u32::MAX + u32::MAX <= u32::MAX * u32::MAX) by (nonlinear_arith)
                        requires
                            j < hi <= u32::MAX,
                            lo <= j,
                    ;
                }
                acc = acc + spectrum[j] as u64;
                j = j + 1;
            }
        }
        levels.push(acc);
        b = b + 1;
    }
    levels
}

} // verus!
