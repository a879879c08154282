use gseq::{
    band_levels, calculate_channel_index, checked_power, first_channel, AnalysisError, Analyzer,
    Break, ConfigError, FrameAccumulator, State, MAX_LEVEL,
};
use realfft::RealFftPlanner;

const SR: u32 = 44100;

fn analyzer() -> Analyzer {
    Analyzer::new(2048, 4, 20, 15000, SR, 50).unwrap()
}

fn spectrum_with(bin: usize, level: u32) -> Vec<u32> {
    let mut s = vec![0u32; 1025];
    s[bin] = level;
    s
}

#[test]
fn boundary_table_matches_rounded_octave_division() {
    for sr in [44100u32, 48000, 32000] {
        let table = calculate_channel_index(20, 15000, 4, sr, 2048);
        assert_eq!(table.len(), 5);
        let octaves_per_band = (15000.0f64 / 20.0).log2() / 4.0;
        for (i, &idx) in table.iter().enumerate() {
            let f = 20.0 * 2f64.powf(octaves_per_band * i as f64);
            let expected = (f * 2048.0 / sr as f64).round() as usize;
            assert_eq!(idx, expected, "sample rate {} boundary {}", sr, i);
        }
    }
    assert_eq!(calculate_channel_index(20, 15000, 4, 44100, 2048), vec![1, 5, 25, 133, 697]);
}

#[test]
fn boundary_table_exact_octaves() {
    // y_i = 16 / 1600 · 100 · 2^i
    assert_eq!(calculate_channel_index(100, 1600, 4, 1600, 16), vec![1, 2, 4, 8, 16]);
    // one band over one octave; half bins round up: 4 / 8 · 3 = 1.5
    assert_eq!(calculate_channel_index(3, 6, 1, 8, 4), vec![2, 3]);
}

#[test]
fn checked_power_detects_overflow() {
    assert_eq!(checked_power(3, 4), Some(81));
    assert_eq!(checked_power(0, 0), Some(1));
    assert_eq!(checked_power(2, 127), Some(1u128 << 127));
    assert_eq!(checked_power(2, 128), None);
}

#[test]
fn band_levels_skip_lower_boundary_bin() {
    let spectrum: Vec<u32> = (0..10).map(|x| x * 10).collect();
    let levels = band_levels(&spectrum, &vec![0, 3, 7]);
    // bins 1, 2 and bins 4, 5, 6
    assert_eq!(levels, vec![10 + 20, 40 + 50 + 60]);
    assert_eq!(band_levels(&spectrum, &vec![2, 3, 3]), vec![0, 0]);
}

#[test]
fn frame_fills_and_restarts() {
    let mut acc = FrameAccumulator::new(3, 0i32);
    assert!(!acc.push(5));
    assert!(!acc.push(6));
    assert_eq!(acc.position(), 2);
    assert!(acc.push(7));
    assert_eq!(acc.position(), 0);
    assert_eq!(acc.frame(), &vec![5, 6, 7]);
    assert!(!acc.push(8));
    assert_eq!(acc.frame(), &vec![8, 6, 7]);
}

#[test]
fn first_channel_keeps_one_sample_per_group() {
    assert_eq!(first_channel(&[1, 2, 3, 4, 5], 2), vec![1, 3, 5]);
    assert_eq!(first_channel(&[1, 2, 3, 4, 5, 6], 3), vec![1, 4]);
    assert_eq!(first_channel::<u8>(&[], 2), Vec::<u8>::new());
    assert_eq!(first_channel(&[9, 8], 1), vec![9, 8]);
}

#[test]
fn configuration_errors() {
    assert_eq!(Analyzer::new(2048, 0, 20, 15000, SR, 50).err(), Some(ConfigError::NoBands));
    assert_eq!(Analyzer::new(2048, 4, 0, 15000, SR, 50).err(), Some(ConfigError::BadFrequencies));
    assert_eq!(Analyzer::new(2048, 4, 200, 150, SR, 50).err(), Some(ConfigError::BadFrequencies));
    assert_eq!(Analyzer::new(2048, 4, 20, 50000, SR, 50).err(), Some(ConfigError::BadFrequencies));
    assert_eq!(Analyzer::new(0, 4, 20, 15000, SR, 50).err(), Some(ConfigError::BadChunkSize));
    assert_eq!(Analyzer::new(2048, 4, 20, 15000, SR, 0).err(), Some(ConfigError::BadWindow));
    assert_eq!(Analyzer::new(2048, 4, 20, 15000, SR, 5000).err(), Some(ConfigError::BadWindow));
    assert_eq!(Analyzer::new(2048, 10, 20, 15000, SR, 50).err(), Some(ConfigError::TableTooLarge));
    assert_eq!(Analyzer::new(2048, 4, 20, SR, SR, 50).err(), Some(ConfigError::BandsPastSpectrum));
    let a = analyzer();
    assert_eq!(a.bands(), 4);
    assert_eq!(a.spectrum_len(), 1025);
    assert_eq!(a.limits(), &vec![1, 5, 25, 133, 697]);
    assert_eq!(a.state(), State::Break(Break::State0));
}

#[test]
fn cycle_errors_leave_state_alone() {
    let mut a = analyzer();
    assert_eq!(a.process(&vec![0u32; 1024], false).err(), Some(AnalysisError::SpectrumLength));
    let loud = spectrum_with(2, MAX_LEVEL + 1);
    assert_eq!(a.process(&loud, false).err(), Some(AnalysisError::LevelOutOfRange));
    assert_eq!(a.global_stats(0).count(), 0);
    let ok = spectrum_with(2, MAX_LEVEL);
    assert!(a.process(&ok, false).is_ok());
    assert_eq!(a.global_stats(0).count(), 1);
}

#[test]
fn silence_end_to_end() {
    let chunk = 2048usize;
    let mut a = analyzer();
    let mut planner = RealFftPlanner::<f32>::new();
    let r2c = planner.plan_fft_forward(chunk);
    let mut acc = FrameAccumulator::new(chunk, 0.0f32);
    let mut out = r2c.make_output_vec();
    let stereo = vec![0.0f32; 2 * chunk];
    for _ in 0..200 {
        let mono = first_channel(&stereo, 2);
        let mut full = false;
        for &x in &mono {
            full = acc.push(x);
        }
        assert!(full);
        let mut frame = acc.frame().clone();
        r2c.process(&mut frame, &mut out).unwrap();
        let mags: Vec<u32> = out.iter().map(|c| c.norm().round() as u32).collect();
        let phase = a.process(&mags, false).unwrap();
        assert_eq!(phase.gains.len(), 4);
        for g in &phase.gains {
            assert_eq!(g.num, 0);
            assert_eq!(g.den_sq, 0);
        }
        assert!(matches!(phase.state, State::Break(_)));
        assert!(!phase.reset);
    }
}

fn drive_to_drop(a: &mut Analyzer) {
    for _ in 0..100 {
        a.process_with_draw(&spectrum_with(2, 0), false, 0).unwrap();
    }
    for _ in 0..50 {
        a.process_with_draw(&spectrum_with(2, 1000), false, 2).unwrap();
    }
}

#[test]
fn rising_low_band_switches_to_drop() {
    let mut a = analyzer();
    drive_to_drop(&mut a);
    assert_eq!(a.state(), State::Drop(gseq::Drop::State2));
    // the level falls back: windowed mean drops below the lifetime mean
    for _ in 0..60 {
        a.process_with_draw(&spectrum_with(2, 0), false, 1).unwrap();
    }
    assert_eq!(a.state(), State::Break(Break::State1));
}

#[test]
fn random_draw_picks_some_drop() {
    let mut a = analyzer();
    for _ in 0..100 {
        a.process(&spectrum_with(2, 0), false).unwrap();
    }
    let mut last = State::Break(Break::State0);
    for _ in 0..50 {
        last = a.process(&spectrum_with(2, 1000), false).unwrap().state;
    }
    assert!(matches!(last, State::Drop(_)));
}

#[test]
fn gains_are_windowed_z_scores() {
    let mut a = Analyzer::new(2048, 4, 20, 15000, SR, 2).unwrap();
    a.process_with_draw(&spectrum_with(2, 10), false, 0).unwrap();
    let p = a.process_with_draw(&spectrum_with(2, 30), false, 0).unwrap();
    // window {10, 30}: mean 20, variance 100; gain (30 − 20) / 10 = 1
    // held as (W·level − Σ) / sqrt(W·Σx² − Σ²) = 20 / sqrt(400)
    assert_eq!(p.gains[0].num, 20);
    assert_eq!(p.gains[0].den_sq, 400);
    assert_eq!(p.gains[1].num, 0);
}

#[test]
fn reset_re_anchors_every_band() {
    let mut a = analyzer();
    drive_to_drop(&mut a);
    let mut s = spectrum_with(2, 500);
    s[10] = 70;
    s[200] = 3;
    let p = a.process_with_draw(&s, true, 3).unwrap();
    assert_eq!(p.state, State::Break(Break::State0));
    assert_eq!(a.state(), State::Break(Break::State0));
    assert!(!p.reset);
    let w = 50u128;
    for b in 0..4 {
        let ws = a.windowed_stats(b);
        let gs = a.global_stats(b);
        let c = gs.count() as u128;
        assert_eq!(c, 151);
        assert_eq!(gs.mean_num() * w, ws.mean_num() as u128 * (w * c));
        assert_eq!(gs.var_num() * w * w, ws.var_num() * (w * c) * (w * c));
    }
}
