use vstd::prelude::*;

use crate::bands::{
    band_level, band_levels, boundary_table_fits, calculate_channel_index, checked_power,
    is_rounded_boundary, lemma_rounded_boundary_unique, limits_fit,
};
use crate::global::{GlobalModel, GlobalStats, MAX_CYCLES};
use crate::phase::{
    draw_sub_state, next_state, spec_next_state, Break, Discriminant, Gain, Phase, State,
};
use crate::windowed::{lemma_window_var_bounds, WindowModel, WindowedStats, MAX_LEVEL, MAX_WINDOW};

verus! {

/// The phase threshold is `THRESHOLD_NUM / THRESHOLD_DEN` (0.2).
pub const THRESHOLD_NUM: u128 = 1;

pub const THRESHOLD_DEN: u128 = 5;

/// Where `num / sqrt(den_sq)` stands relative to the threshold, decided
/// without a root. `0 / 0` is taken as the neutral value 0, below it.
pub open spec fn classify(num: int, den_sq: int) -> Discriminant {
    if num > 0 && THRESHOLD_DEN * THRESHOLD_DEN * (num * num) > THRESHOLD_NUM * THRESHOLD_NUM
        * den_sq {
        Discriminant::Above
    } else if num <= 0 || THRESHOLD_DEN * THRESHOLD_DEN * (num * num) < THRESHOLD_NUM
        * THRESHOLD_NUM * den_sq {
        Discriminant::Below
    } else {
        Discriminant::AtThreshold
    }
}

/// Largest magnitude of a discriminator numerator.
pub const MAX_DISCRIMINATOR: i128 = 1152921504606846976;

/// Where `num / sqrt(den_sq)` stands relative to the phase threshold.
pub fn discriminant(num: i128, den_sq: u128) -> (r: Discriminant)
    requires
        -MAX_DISCRIMINATOR <= num <= MAX_DISCRIMINATOR,
    ensures
        r == classify(num as int, den_sq as int),
{
    let a = if num < 0 {
        (-num) as u128
    } else {
        num as u128
    };
    assert(a * a <= MAX_DISCRIMINATOR * MAX_DISCRIMINATOR) by (nonlinear_arith)
        requires
            a <= MAX_DISCRIMINATOR,
    ;
    assert(a * a == num * num) by (nonlinear_arith)
        requires
            a == num || a == -num,
    ;
    let lhs = THRESHOLD_DEN * THRESHOLD_DEN * (a * a);
    let rhs = THRESHOLD_NUM * THRESHOLD_NUM * den_sq;
    if num > 0 && lhs > rhs {
        Discriminant::Above
    } else if num <= 0 || lhs < rhs {
        Discriminant::Below
    } else {
        Discriminant::AtThreshold
    }
}

/// Why a configuration is refused.
#[derive(Debug, Clone, Copy, PartialEq, Eq, Structural)]
pub enum ConfigError {
    /// No band was asked for.
    NoBands,
    /// The frequencies are not `0 < min <= max <= sample_rate`.
    BadFrequencies,
    /// The chunk size is zero.
    BadChunkSize,
    /// The window size is not in `1..=MAX_WINDOW`.
    BadWindow,
    /// The boundary table does not fit the exact 128-bit computation.
    TableTooLarge,
    /// A band boundary lies past the last bin of the spectrum.
    BandsPastSpectrum,
}

/// Every boundary of the table, rounded to its bin, lies within a spectrum
/// of `chunk_size / 2 + 1` bins.
pub open spec fn table_within_spectrum(
    chunk_size: u32,
    nb_channels: u32,
    min_freq: u32,
    max_freq: u32,
    sample_rate: u32,
) -> bool {
    forall|i: int, k: int|
        0 <= i <= nb_channels && #[trigger] is_rounded_boundary(
            k,
            min_freq as int,
            max_freq as int,
            nb_channels as nat,
            sample_rate as int,
            chunk_size as int,
            i as nat,
        ) ==> k <= chunk_size / 2 + 1
}

/// The first thing wrong with a configuration, checked in this order, or
/// `None`.
pub open spec fn config_error(
    chunk_size: u32,
    nb_channels: u32,
    min_freq: u32,
    max_freq: u32,
    sample_rate: u32,
    window: u64,
) -> Option<ConfigError> {
    if nb_channels == 0 {
        Some(ConfigError::NoBands)
    } else if !(0 < min_freq <= max_freq <= sample_rate) {
        Some(ConfigError::BadFrequencies)
    } else if chunk_size == 0 {
        Some(ConfigError::BadChunkSize)
    } else if !(1 <= window <= MAX_WINDOW) {
        Some(ConfigError::BadWindow)
    } else if !boundary_table_fits(nb_channels, sample_rate, chunk_size) {
        Some(ConfigError::TableTooLarge)
    } else if !table_within_spectrum(chunk_size, nb_channels, min_freq, max_freq, sample_rate) {
        Some(ConfigError::BandsPastSpectrum)
    } else {
        None
    }
}

/// Why one analysis cycle was skipped.
#[derive(Debug, Clone, Copy, PartialEq, Eq, Structural)]
pub enum AnalysisError {
    /// The spectrum does not have `chunk_size / 2 + 1` bins.
    SpectrumLength,
    /// A band level exceeds `MAX_LEVEL`.
    LevelOutOfRange,
    /// The lifetime statistics have counted `MAX_CYCLES` cycles.
    CycleLimit,
}

/// Mathematical state of the analysis pipeline.
pub struct AnalyzerModel {
    /// The bin boundary table of the bands.
    pub limits: Seq<usize>,
    /// Bins per spectrum.
    pub spectrum_len: int,
    /// Sliding-window size `W`.
    pub window: int,
    pub windowed: Seq<WindowModel>,
    pub global: Seq<GlobalModel>,
    pub state: State,
}

impl AnalyzerModel {
    pub open spec fn bands(self) -> int {
        self.limits.len() - 1
    }

    pub open spec fn valid(self) -> bool {
        &&& self.bands() >= 1
        &&& limits_fit(self.spectrum_len, self.limits)
        &&& self.spectrum_len < u32::MAX
        &&& 1 <= self.window <= MAX_WINDOW
        &&& self.windowed.len() == self.bands()
        &&& self.global.len() == self.bands()
        &&& forall|b: int|
            0 <= b < self.bands() ==> {
                &&& #[trigger] self.windowed[b].valid()
                &&& self.windowed[b].size == self.window
            }
        &&& forall|b: int|
            0 <= b < self.bands() ==> {
                &&& #[trigger] self.global[b].valid()
                &&& self.global[b].scale == self.window
                &&& self.global[b].count == self.global[0].count
            }
    }

    /// Cycles processed since the start.
    pub open spec fn cycles(self) -> int {
        self.global[0].count
    }

    /// The level of each band for a spectrum.
    pub open spec fn levels(self, spectrum: Seq<u32>) -> Seq<int> {
        Seq::new(self.bands() as nat, |b: int| band_level(spectrum, self.limits, b))
    }

    pub open spec fn levels_in_range(self, spectrum: Seq<u32>) -> bool {
        forall|b: int| 0 <= b < self.bands() ==> #[trigger] band_level(spectrum, self.limits, b)
            <= MAX_LEVEL
    }

    /// Both statistics of every band after taking in its level.
    pub open spec fn stepped(self, levels: Seq<int>) -> AnalyzerModel {
        AnalyzerModel {
            windowed: Seq::new(self.bands() as nat, |b: int| self.windowed[b].step(levels[b])),
            global: Seq::new(self.bands() as nat, |b: int| self.global[b].step(levels[b])),
            ..self
        }
    }

    /// Numerator of the discriminator of band 0: the windowed mean minus the
    /// lifetime mean over the lifetime standard deviation is
    /// `discriminator_num() / sqrt(global[0].var_num())`.
    pub open spec fn discriminator_num(self) -> int {
        self.global[0].count * self.windowed[0].mean_num() - self.global[0].total
    }

    pub open spec fn discriminant(self) -> Discriminant {
        classify(self.discriminator_num(), self.global[0].var_num())
    }

    /// Gain of band `b` for its level: `(level − mean) / sqrt(var)` against the
    /// windowed statistics, that is `(W·level − mean_num) / sqrt(var_num)`.
    pub open spec fn gain(self, levels: Seq<int>, b: int) -> Gain {
        Gain {
            num: (self.window * levels[b] - self.windowed[b].mean_num()) as i64,
            den_sq: self.windowed[b].var_num() as u128,
        }
    }

    pub open spec fn gains(self, levels: Seq<int>) -> Seq<Gain> {
        Seq::new(self.bands() as nat, |b: int| self.gain(levels, b))
    }

    /// Every band's lifetime statistics re-anchored to its windowed ones.
    pub open spec fn re_anchored(self) -> AnalyzerModel {
        AnalyzerModel {
            global: Seq::new(
                self.bands() as nat,
                |b: int|
                    self.global[b].re_anchored(
                        self.windowed[b].mean_num(),
                        self.windowed[b].var_num(),
                    ),
            ),
            ..self
        }
    }

    /// The model after a cycle on `levels`, with a reset request or not, and
    /// `draw` for a sub-variant if the phase changes.
    pub open spec fn after_cycle(self, levels: Seq<int>, reset: bool, draw: u8) -> AnalyzerModel {
        let s = self.stepped(levels);
        if reset {
            AnalyzerModel { state: State::Break(Break::State0), ..s.re_anchored() }
        } else {
            AnalyzerModel { state: spec_next_state(self.state, s.discriminant(), draw), ..s }
        }
    }
}

/// What one cycle does, given the draw used if the phase changes: the
/// spectrum is refused if its length is wrong, a band level is out of range
/// or the cycle count is exhausted, and the model is then left as it was;
/// otherwise the model moves to `after_cycle` and the published phase holds
/// its gains and state with no reset pending.
pub open spec fn cycle_outcome(
    pre: AnalyzerModel,
    post: AnalyzerModel,
    spectrum: Seq<u32>,
    reset: bool,
    draw: u8,
    r: Result<Phase, AnalysisError>,
) -> bool {
    if spectrum.len() != pre.spectrum_len {
        r == Err::<Phase, AnalysisError>(AnalysisError::SpectrumLength) && post == pre
    } else if !pre.levels_in_range(spectrum) {
        r == Err::<Phase, AnalysisError>(AnalysisError::LevelOutOfRange) && post == pre
    } else if pre.cycles() >= MAX_CYCLES {
        r == Err::<Phase, AnalysisError>(AnalysisError::CycleLimit) && post == pre
    } else {
        &&& post == pre.after_cycle(pre.levels(spectrum), reset, draw)
        &&& r is Ok
        &&& r->Ok_0.gains@ == pre.stepped(pre.levels(spectrum)).gains(pre.levels(spectrum))
        &&& r->Ok_0.state == post.state
        &&& !r->Ok_0.reset
    }
}

/// The audio analysis pipeline from spectrum to published phase.
pub struct Analyzer {
    limits: Vec<usize>,
    spectrum_len: usize,
    window: u64,
    windowed: Vec<WindowedStats>,
    global: Vec<GlobalStats>,
    state: State,
}

impl Analyzer {
    pub closed spec fn view(&self) -> AnalyzerModel {
        AnalyzerModel {
            limits: self.limits@,
            spectrum_len: self.spectrum_len as int,
            window: self.window as int,
            windowed: self.windowed@.map_values(|w: WindowedStats| w@),
            global: self.global@.map_values(|g: GlobalStats| g@),
            state: self.state,
        }
    }

    pub closed spec fn inv(&self) -> bool {
        forall|b: int| 0 <= b < self.windowed@.len() ==> #[trigger] self.windowed@[b].inv()
    }

    pub open spec fn wf(&self) -> bool {
        self.inv() && self@.valid()
    }

    /// A pipeline for `nb_channels` log-spaced bands between `min_freq` and
    /// `max_freq` Hz, spectra of `chunk_size` samples at `sample_rate`, and a
    /// sliding window of `window` cycles: empty statistics, the boundary table
    /// rounded to bins, and the phase `Break(State0)`.
    pub fn new(
        chunk_size: u32,
        nb_channels: u32,
        min_freq: u32,
        max_freq: u32,
        sample_rate: u32,
        window: u64,
    ) -> (r: Result<Analyzer, ConfigError>)
        ensures
            match r {
                Ok(a) => {
                    &&& config_error(
                        chunk_size,
                        nb_channels,
                        min_freq,
                        max_freq,
                        sample_rate,
                        window,
                    ) is None
                    &&& a.wf()
                    &&& a@.bands() == nb_channels
                    &&& forall|i: int|
                        0 <= i <= nb_channels ==> #[trigger] is_rounded_boundary(
                            a@.limits[i] as int,
                            min_freq as int,
                            max_freq as int,
                            nb_channels as nat,
                            sample_rate as int,
                            chunk_size as int,
                            i as nat,
                        )
                    &&& a@.spectrum_len == chunk_size / 2 + 1
                    &&& a@.window == window
                    &&& forall|b: int|
                        0 <= b < nb_channels ==> #[trigger] a@.windowed[b] == (WindowModel {
                            size: window as int,
                            window: Seq::empty(),
                        })
                    &&& forall|b: int|
                        0 <= b < nb_channels ==> #[trigger] a@.global[b] == (GlobalModel {
                            scale: window as int,
                            count: 0,
                            total: 0,
                            total_sq: 0,
                        })
                    &&& a@.state == State::Break(Break::State0)
                },
                Err(e) => config_error(
                    chunk_size,
                    nb_channels,
                    min_freq,
                    max_freq,
                    sample_rate,
                    window,
                ) == Some(e),
            },
    {
        if nb_channels == 0 {
            return Err(ConfigError::NoBands);
        }
        if !(0 < min_freq && min_freq <= max_freq && max_freq <= sample_rate) {
            return Err(ConfigError::BadFrequencies);
        }
        if chunk_size == 0 {
            return Err(ConfigError::BadChunkSize);
        }
        if window < 1 || window > MAX_WINDOW {
            return Err(ConfigError::BadWindow);
        }
        assert(2 * (chunk_size as u128) * (sample_rate as u128) <= 2 * u32::MAX * u32::MAX)
            by (nonlinear_arith)
            requires
                chunk_size <= u32::MAX,
                sample_rate <= u32::MAX,
        ;
        if checked_power(2 * (chunk_size as u128) * (sample_rate as u128), nb_channels).is_none() {
            return Err(ConfigError::TableTooLarge);
        }
        let limits = calculate_channel_index(
            min_freq,
            max_freq,
            nb_channels,
            sample_rate,
            chunk_size,
        );
        let spectrum_len = (chunk_size / 2 + 1) as usize;
        let n = limits.len();
        let mut i: usize = 0;
        while i < n
            invariant
                n == limits@.len(),
                n == nb_channels + 1,
                spectrum_len == chunk_size / 2 + 1,
                0 < nb_channels,
                0 < min_freq <= max_freq <= sample_rate,
                0 < chunk_size,
                1 <= window <= MAX_WINDOW,
                boundary_table_fits(nb_channels, sample_rate, chunk_size),
                forall|j: int| 0 <= j < i ==> #[trigger] limits@[j] <= spectrum_len,
                forall|j: int|
                    0 <= j <= nb_channels ==> #[trigger] is_rounded_boundary(
                        limits@[j] as int,
                        min_freq as int,
                        max_freq as int,
                        nb_channels as nat,
                        sample_rate as int,
                        chunk_size as int,
                        j as nat,
                    ),
            decreases n - i,
        {
            if limits[i] > spectrum_len {
                proof {
                    let ii = i as int;
                    assert(is_rounded_boundary(
                        limits@[ii] as int,
                        min_freq as int,
                        max_freq as int,
                        nb_channels as nat,
                        sample_rate as int,
                        chunk_size as int,
                        ii as nat,
                    ));
                    assert(limits@[ii] as int > chunk_size / 2 + 1);
                    assert(!table_within_spectrum(
                        chunk_size,
                        nb_channels,
                        min_freq,
                        max_freq,
                        sample_rate,
                    ));
                }
                return Err(ConfigError::BandsPastSpectrum);
            }
            i = i + 1;
        }
        proof {
            assert forall|i: int, k: int|
                0 <= i <= nb_channels && #[trigger] is_rounded_boundary(
                    k,
                    min_freq as int,
                    max_freq as int,
                    nb_channels as nat,
                    sample_rate as int,
                    chunk_size as int,
                    i as nat,
                ) implies k <= chunk_size / 2 + 1 by {
                assert(is_rounded_boundary(
                    limits@[i] as int,
                    min_freq as int,
                    max_freq as int,
                    nb_channels as nat,
                    sample_rate as int,
                    chunk_size as int,
                    i as nat,
                ));
                lemma_rounded_boundary_unique(
                    k,
                    limits@[i] as int,
                    min_freq as int,
                    max_freq as int,
                    nb_channels as nat,
                    sample_rate as int,
                    chunk_size as int,
                    i as nat,
                );
            }
        }
        let mut windowed: Vec<WindowedStats> = Vec::new();
        let mut global: Vec<GlobalStats> = Vec::new();
        let mut b: u32 = 0;
        while b < nb_channels
            invariant
                1 <= window <= MAX_WINDOW,
                windowed@.len() == b,
                global@.len() == b,
                b <= nb_channels,
                forall|j: int|
                    #![trigger windowed@[j]]
                    0 <= j < b ==> windowed@[j].wf() && windowed@[j]@ == (WindowModel {
                        size: window as int,
                        window: Seq::empty(),
                    }),
                forall|j: int|
                    #![trigger global@[j]]
                    0 <= j < b ==> global@[j].wf() && global@[j]@ == (GlobalModel {
                        scale: window as int,
                        count: 0,
                        total: 0,
                        total_sq: 0,
                    }),
            decreases nb_channels - b,
        {
            windowed.push(WindowedStats::new(window));
            global.push(GlobalStats::new(window));
            b = b + 1;
        }
        let a = Analyzer {
            limits,
            spectrum_len,
            window,
            windowed,
            global,
            state: State::Break(Break::State0),
        };
        proof {
            assert forall|j: int| #![trigger a.windowed@[j]] 0 <= j < a.windowed@.len() implies a.windowed@[j].inv() by {
                assert(a.windowed@[j].wf());
            }
            assert forall|j: int| #![trigger a@.windowed[j]] 0 <= j < nb_channels implies a@.windowed[j].valid()
                && a@.windowed[j].size == window by {
                assert(a.windowed@[j].wf());
            }
            assert forall|j: int| #![trigger a@.global[j]] 0 <= j < nb_channels implies a@.global[j].valid()
                && a@.global[j].scale == window && a@.global[j].count == a@.global[0].count by {
                assert(a.global@[j].wf());
                assert(a.global@[0].wf());
            }
        }
        Ok(a)
    }

    /// The phase currently held.
    pub fn state(&self) -> (r: State)
        ensures
            r == self@.state,
    {
        self.state
    }

    /// Number of bands.
    pub fn bands(&self) -> (r: usize)
        requires
            self.wf(),
        ensures
            r == self@.bands(),
    {
        self.limits.len() - 1
    }

    /// Bins expected per spectrum.
    pub fn spectrum_len(&self) -> (r: usize)
        ensures
            r == self@.spectrum_len,
    {
        self.spectrum_len
    }

    /// The windowed statistics of band `b`.
    pub fn windowed_stats(&self, b: usize) -> (r: &WindowedStats)
        requires
            self.wf(),
            b < self@.bands(),
        ensures
            r.wf(),
            r@ == self@.windowed[b as int],
    {
        proof {
            assert(self.windowed@[b as int].inv());
            assert(self@.windowed[b as int].valid());
        }
        &self.windowed[b]
    }

    /// The lifetime statistics of band `b`.
    pub fn global_stats(&self, b: usize) -> (r: &GlobalStats)
        requires
            self.wf(),
            b < self@.bands(),
        ensures
            r.wf(),
            r@ == self@.global[b as int],
    {
        proof {
            assert(self@.global[b as int].valid());
        }
        &self.global[b]
    }

    /// The bin boundary table of the bands.
    pub fn limits(&self) -> (r: &Vec<usize>)
        ensures
            r@ == self@.limits,
    {
        &self.limits
    }

    /// Numerator of the discriminator of band 0 and the squared denominator:
    /// `(windowed_mean − global_mean) / sqrt(global_var)` is `num / sqrt(den_sq)`.
    fn discriminator(&self) -> (r: (i128, u128))
        requires
            self.wf(),
        ensures
            r.0 == self@.discriminator_num(),
            r.1 == self@.global[0].var_num(),
            -MAX_DISCRIMINATOR <= r.0 <= MAX_DISCRIMINATOR,
    {
        let g = &self.global[0];
        let w = &self.windowed[0];
        proof {
            assert(self@.global[0] == g@);
            assert(self@.windowed[0] == w@);
            assert(self.windowed@[0].inv());
            assert(self@.windowed[0].valid());
            assert(self@.global[0].valid());
            lemma_window_var_bounds(w@);
            let (c, sm, t) = (g@.count, w@.mean_num(), g@.total);
            assert(c * sm <= MAX_CYCLES * (MAX_WINDOW * MAX_LEVEL)) by (nonlinear_arith)
                requires
                    0 <= c <= MAX_CYCLES,
                    0 <= sm <= w@.size * MAX_LEVEL,
                    w@.size <= MAX_WINDOW,
            ;
            assert(0 <= c * sm) by (nonlinear_arith)
                requires
                    0 <= c,
                    0 <= sm,
            ;
            assert(t <= MAX_WINDOW * MAX_CYCLES * MAX_LEVEL) by (nonlinear_arith)
                requires
                    t <= g@.scale * c * MAX_LEVEL,
                    1 <= g@.scale <= MAX_WINDOW,
                    0 <= c <= MAX_CYCLES,
            ;
        }
        let c = g.count() as i128;
        let sm = w.mean_num() as i128;
        let t = g.mean_num() as i128;
        (c * sm - t, g.var_num())
    }

    /// One analysis cycle on a quantized magnitude spectrum, with `draw`
    /// (from `{0, 1, 2, 3}`) naming the sub-variant if the phase changes.
    /// The band levels enter both statistics of every band; the discriminator
    /// of band 0 drives the phase; the gains are the z-scores of the levels
    /// against the windowed statistics. With `reset`, the lifetime statistics
    /// are then re-anchored to the windowed ones and the phase returns to
    /// `Break(State0)`.
    pub fn process_with_draw(&mut self, spectrum: &Vec<u32>, reset: bool, draw: u8) -> (r: Result<
        Phase,
        AnalysisError,
    >)
        requires
            old(self).wf(),
        ensures
            final(self).wf(),
            cycle_outcome(old(self)@, final(self)@, spectrum@, reset, draw, r),
    {
        let ghost pre = self@;
        if spectrum.len() != self.spectrum_len {
            return Err(AnalysisError::SpectrumLength);
        }
        let levels = band_levels(spectrum, &self.limits);
        let ghost lv = pre.levels(spectrum@);
        let nb = self.limits.len() - 1;
        let mut b: usize = 0;
        while b < nb
            invariant
                nb == pre.bands(),
                levels@.len() == nb,
                spectrum@.len() == pre.spectrum_len,
                self@ == pre,
                self.wf(),
                lv == pre.levels(spectrum@),
                forall|j: int| 0 <= j < b ==> #[trigger] levels@[j] <= MAX_LEVEL,
                forall|j: int| 0 <= j < nb ==> #[trigger] levels@[j] == lv[j],
            decreases nb - b,
        {
            if levels[b] > MAX_LEVEL as u64 {
                proof {
                    assert(levels@[b as int] == lv[b as int]);
                    assert(band_level(spectrum@, pre.limits, b as int) > MAX_LEVEL);
                    assert(!pre.levels_in_range(spectrum@));
                }
                return Err(AnalysisError::LevelOutOfRange);
            }
            b = b + 1;
        }
        assert forall|j: int| 0 <= j < pre.bands() implies #[trigger] band_level(
            spectrum@,
            pre.limits,
            j,
        ) <= MAX_LEVEL by {
            assert(levels@[j] == lv[j]);
        }
        assert(pre.levels_in_range(spectrum@));
        proof {
            assert(self.global@[0]@ == pre.global[0]);
            assert(pre.global[0].valid());
        }
        if self.global[0].count() >= MAX_CYCLES {
            return Err(AnalysisError::CycleLimit);
        }
        proof {
            assert forall|j: int| #![trigger self.global@[j]] 0 <= j < self.global@.len() implies self.global@[j].wf()
                && self.global@[j]@.count < MAX_CYCLES by {
                assert(pre.global[j] == self.global@[j]@);
            }
            assert forall|j: int| #![trigger self.windowed@[j]] 0 <= j < self.windowed@.len() implies self.windowed@[j].wf() by {
                assert(pre.windowed[j] == self.windowed@[j]@);
            }
        }
        step_windowed(&mut self.windowed, &levels);
        step_global(&mut self.global, &levels);
        let ghost mid = pre.stepped(lv);
        proof {
            assert forall|j: int| 0 <= j < nb implies self@.windowed[j] == mid.windowed[j]
                && self@.global[j] == mid.global[j] by {
                assert(self.windowed@[j].wf());
                assert(self.global@[j].wf());
                assert(levels@[j] == lv[j]);
            }
            assert(self@.windowed =~= mid.windowed);
            assert(self@.global =~= mid.global);
            assert(self@ == mid);
            assert forall|j: int| #![trigger self.windowed@[j]] 0 <= j < self.windowed@.len() implies self.windowed@[j].inv() by {
                assert(self.windowed@[j].wf());
            }
            assert forall|j: int| 0 <= j < nb implies #[trigger] self@.windowed[j].valid()
                && self@.windowed[j].size == self@.window by {
                assert(self.windowed@[j].wf());
                assert(pre.windowed[j].valid());
            }
            assert forall|j: int| 0 <= j < nb implies #[trigger] self@.global[j].valid()
                && self@.global[j].scale == self@.window && self@.global[j].count
                == self@.global[0].count by {
                assert(self.global@[j].wf());
                assert(pre.global[j].valid());
                assert(pre.global[0].valid());
            }
            assert(self.wf());
        }
        let (num, den_sq) = self.discriminator();
        let next = next_state(self.state, discriminant(num, den_sq), draw);
        let gains = gains_of(&self.windowed, &levels, self.window);
        proof {
            assert(gains@ =~= mid.gains(lv));
        }
        if reset {
            proof {
                assert forall|j: int| #![trigger self.global@[j]] 0 <= j < self.global@.len() implies self.global@[j].wf()
                    && self.global@[j]@.scale == self.window by {
                    assert(self@.global[j].valid());
                }
                assert forall|j: int| #![trigger self.windowed@[j]] 0 <= j < self.windowed@.len() implies self.windowed@[j].wf()
                    && self.windowed@[j]@.size == self.window by {
                    assert(self@.windowed[j].valid());
                    assert(self.windowed@[j].inv());
                }
            }
            re_anchor_all(&mut self.global, &self.windowed, self.window);
            self.state = State::Break(Break::State0);
            proof {
                assert forall|j: int| #![trigger self@.global[j]] 0 <= j < nb implies self@.global[j] == mid.re_anchored().global[j]
                    && self@.global[j].valid() && self@.global[j].scale == self@.window
                    && self@.global[j].count == self@.global[0].count by {
                    assert(self.global@[j].wf());
                    assert(self.global@[0].wf());
                    assert(mid.global[j].valid());
                    assert(mid.global[0].valid());
                }
                assert(self@.global =~= mid.re_anchored().global);
            }
        } else {
            self.state = next;
        }
        Ok(Phase { gains, state: self.state, reset: false })
    }

    /// One analysis cycle on a quantized magnitude spectrum, as
    /// `process_with_draw` with a sub-variant drawn uniformly at random.
    pub fn process(&mut self, spectrum: &Vec<u32>, reset: bool) -> (r: Result<Phase, AnalysisError>)
        requires
            old(self).wf(),
        ensures
            final(self).wf(),
            exists|draw: u8|
                draw <= 3 && cycle_outcome(old(self)@, final(self)@, spectrum@, reset, draw, r),
    {
        let draw = draw_sub_state();
        self.process_with_draw(spectrum, reset, draw)
    }
}

/// A cycle that follows a reset request leaves, for every band, the lifetime
/// mean equal to the windowed mean (`total / (W·count) == mean_num / W`) and
/// the lifetime variance equal to the windowed variance
/// (`var_num / (W·count)² == var_num / W²`), and the phase at `Break(State0)`.
pub proof fn lemma_reset_reanchors(pre: AnalyzerModel, levels: Seq<int>, draw: u8)
    requires
        pre.valid(),
    ensures
        pre.after_cycle(levels, true, draw).state == State::Break(Break::State0),
        forall|b: int|
            #![trigger pre.after_cycle(levels, true, draw).global[b]]
            0 <= b < pre.bands() ==> {
                let post = pre.after_cycle(levels, true, draw);
                &&& post.global[b].mean_num() * post.window == post.windowed[b].mean_num()
                    * post.global[b].mean_den()
                &&& post.global[b].var_num() * (post.window * post.window)
                    == post.windowed[b].var_num() * post.global[b].var_den()
            },
{
    let post = pre.after_cycle(levels, true, draw);
    assert forall|b: int|
        #![trigger post.global[b]]
        0 <= b < pre.bands() implies post.global[b].mean_num() * post.window
        == post.windowed[b].mean_num() * post.global[b].mean_den() && post.global[b].var_num() * (
    post.window * post.window) == post.windowed[b].var_num() * post.global[b].var_den() by {
        assert(pre.global[b].valid());
        let (w, c) = (post.window, post.global[b].count);
        let (sm, v) = (post.windowed[b].mean_num(), post.windowed[b].var_num());
        assert(post.global[b].scale == w);
        assert(post.global[b].total == c * sm);
        assert(post.global[b].total_sq == c * (v + sm * sm));
        assert((c * sm) * w == sm * (w * c)) by (nonlinear_arith);
        assert((c * (c * (v + sm * sm)) - (c * sm) * (c * sm)) * (w * w) == v * ((w * c) * (w
            * c))) by (nonlinear_arith);
    }
}

/// Whatever sub-variant is active and whatever the draw, a cycle without a
/// reset request whose discriminator is above the threshold takes any `Break`
/// to a `Drop`, and one whose discriminator is below it takes any `Drop` to a
/// `Break`.
pub proof fn lemma_cycle_switches_phase(pre: AnalyzerModel, levels: Seq<int>, draw: u8)
    ensures
        pre.state is Break && pre.stepped(levels).discriminant() == Discriminant::Above
            ==> pre.after_cycle(levels, false, draw).state is Drop,
        pre.state is Drop && pre.stepped(levels).discriminant() == Discriminant::Below
            ==> pre.after_cycle(levels, false, draw).state is Break,
{
}

/// Every band's windowed statistics take in the band's level.
fn step_windowed(ws: &mut Vec<WindowedStats>, levels: &Vec<u64>)
    requires
        levels@.len() == old(ws)@.len(),
        forall|b: int| 0 <= b < old(ws)@.len() ==> #[trigger] old(ws)@[b].wf(),
        forall|b: int| 0 <= b < levels@.len() ==> #[trigger] levels@[b] <= MAX_LEVEL,
    ensures
        final(ws)@.len() == old(ws)@.len(),
        forall|b: int|
            0 <= b < final(ws)@.len() ==> {
                &&& #[trigger] final(ws)@[b].wf()
                &&& final(ws)@[b]@ == old(ws)@[b]@.step(levels@[b] as int)
            },
{
    let ghost pre = ws@;
    let mut b: usize = 0;
    while b < ws.len()
        invariant
            levels@.len() == pre.len(),
            ws@.len() == pre.len(),
            forall|j: int| 0 <= j < pre.len() ==> #[trigger] pre[j].wf(),
            forall|j: int| 0 <= j < levels@.len() ==> #[trigger] levels@[j] <= MAX_LEVEL,
            b <= pre.len(),
            forall|j: int|
                #![trigger ws@[j]]
                0 <= j < b ==> ws@[j].wf() && ws@[j]@ == pre[j]@.step(levels@[j] as int),
            forall|j: int| #![trigger ws@[j]] b <= j < pre.len() ==> ws@[j] == pre[j],
        decreases pre.len() - b,
    {
        let ghost before = ws@;
        let mut w = ws.remove(b);
        w.update(levels[b] as u32);
        ws.insert(b, w);
        proof {
            assert(ws@ =~= before.update(b as int, w));
        }
        b = b + 1;
    }
}

/// Every band's lifetime statistics take in the band's level.
fn step_global(gs: &mut Vec<GlobalStats>, levels: &Vec<u64>)
    requires
        levels@.len() == old(gs)@.len(),
        forall|b: int|
            #![trigger old(gs)@[b]]
            0 <= b < old(gs)@.len() ==> old(gs)@[b].wf() && old(gs)@[b]@.count < MAX_CYCLES,
        forall|b: int| 0 <= b < levels@.len() ==> #[trigger] levels@[b] <= MAX_LEVEL,
    ensures
        final(gs)@.len() == old(gs)@.len(),
        forall|b: int|
            0 <= b < final(gs)@.len() ==> {
                &&& #[trigger] final(gs)@[b].wf()
                &&& final(gs)@[b]@ == old(gs)@[b]@.step(levels@[b] as int)
            },
{
    let ghost pre = gs@;
    let mut b: usize = 0;
    while b < gs.len()
        invariant
            levels@.len() == pre.len(),
            gs@.len() == pre.len(),
            forall|j: int|
                #![trigger pre[j]]
                0 <= j < pre.len() ==> pre[j].wf() && pre[j]@.count < MAX_CYCLES,
            forall|j: int| 0 <= j < levels@.len() ==> #[trigger] levels@[j] <= MAX_LEVEL,
            b <= pre.len(),
            forall|j: int|
                #![trigger gs@[j]]
                0 <= j < b ==> gs@[j].wf() && gs@[j]@ == pre[j]@.step(levels@[j] as int),
            forall|j: int| #![trigger gs@[j]] b <= j < pre.len() ==> gs@[j] == pre[j],
        decreases pre.len() - b,
    {
        let ghost before = gs@;
        let mut g = gs.remove(b);
        g.update(levels[b] as u32);
        gs.insert(b, g);
        proof {
            assert(gs@ =~= before.update(b as int, g));
        }
        b = b + 1;
    }
}

/// Every band's lifetime statistics re-anchored to its windowed ones.
fn re_anchor_all(gs: &mut Vec<GlobalStats>, ws: &Vec<WindowedStats>, window: u64)
    requires
        ws@.len() == old(gs)@.len(),
        forall|b: int|
            #![trigger old(gs)@[b]]
            0 <= b < old(gs)@.len() ==> old(gs)@[b].wf() && old(gs)@[b]@.scale == window,
        forall|b: int| #![trigger ws@[b]] 0 <= b < ws@.len() ==> ws@[b].wf() && ws@[b]@.size == window,
    ensures
        final(gs)@.len() == old(gs)@.len(),
        forall|b: int|
            0 <= b < final(gs)@.len() ==> {
                &&& #[trigger] final(gs)@[b].wf()
                &&& final(gs)@[b]@ == old(gs)@[b]@.re_anchored(
                    ws@[b]@.mean_num(),
                    ws@[b]@.var_num(),
                )
            },
{
    let ghost pre = gs@;
    let mut b: usize = 0;
    while b < gs.len()
        invariant
            ws@.len() == pre.len(),
            gs@.len() == pre.len(),
            forall|j: int|
                #![trigger pre[j]]
                0 <= j < pre.len() ==> pre[j].wf() && pre[j]@.scale == window,
            forall|j: int| #![trigger ws@[j]] 0 <= j < ws@.len() ==> ws@[j].wf() && ws@[j]@.size == window,
            b <= pre.len(),
            forall|j: int|
                #![trigger gs@[j]]
                0 <= j < b ==> gs@[j].wf() && gs@[j]@ == pre[j]@.re_anchored(
                    ws@[j]@.mean_num(),
                    ws@[j]@.var_num(),
                ),
            forall|j: int| #![trigger gs@[j]] b <= j < pre.len() ==> gs@[j] == pre[j],
        decreases pre.len() - b,
    {
        let ghost before = gs@;
        proof {
            lemma_window_var_bounds(ws@[b as int]@);
        }
        let mut g = gs.remove(b);
        g.re_anchor(ws[b].mean_num(), ws[b].var_num());
        gs.insert(b, g);
        proof {
            assert(gs@ =~= before.update(b as int, g));
        }
        b = b + 1;
    }
}

/// The gain of every band: `(W·level − mean_num) / sqrt(var_num)` against its
/// windowed statistics.
fn gains_of(ws: &Vec<WindowedStats>, levels: &Vec<u64>, window: u64) -> (r: Vec<Gain>)
    requires
        levels@.len() == ws@.len(),
        1 <= window <= MAX_WINDOW,
        forall|b: int| 0 <= b < ws@.len() ==> #[trigger] ws@[b].wf(),
        forall|b: int| 0 <= b < levels@.len() ==> #[trigger] levels@[b] <= MAX_LEVEL,
    ensures
        r@.len() == ws@.len(),
        forall|b: int|
            0 <= b < r@.len() ==> #[trigger] r@[b] == (Gain {
                num: (window * levels@[b] - ws@[b]@.mean_num()) as i64,
                den_sq: ws@[b]@.var_num() as u128,
            }),
{
    let mut gains: Vec<Gain> = Vec::new();
    let mut b: usize = 0;
    while b < ws.len()
        invariant
            levels@.len() == ws@.len(),
            1 <= window <= MAX_WINDOW,
            forall|j: int| 0 <= j < ws@.len() ==> #[trigger] ws@[j].wf(),
            forall|j: int| 0 <= j < levels@.len() ==> #[trigger] levels@[j] <= MAX_LEVEL,
            gains@.len() == b,
            b <= ws@.len(),
            forall|j: int|
                0 <= j < b ==> #[trigger] gains@[j] == (Gain {
                    num: (window * levels@[j] - ws@[j]@.mean_num()) as i64,
                    den_sq: ws@[j]@.var_num() as u128,
                }),
        decreases ws@.len() - b,
    {
        let w = &ws[b];
        let level = levels[b];
        proof {
            assert(ws@[b as int].wf());
            lemma_window_var_bounds(w@);
            assert(window * level <= MAX_WINDOW * MAX_LEVEL) by (nonlinear_arith)
                requires
                    window <= MAX_WINDOW,
                    level <= MAX_LEVEL,
            ;
            assert(w@.mean_num() <= MAX_WINDOW * MAX_LEVEL) by (nonlinear_arith)
                requires
                    w@.mean_num() <= w@.size * MAX_LEVEL,
                    w@.size <= MAX_WINDOW,
            ;
        }
        let num = (window * level) as i64 - w.mean_num() as i64;
        gains.push(Gain { num, den_sq: w.var_num() });
        b = b + 1;
    }
    gains
}

} // verus!
