use gseq::{GlobalStats, WindowedStats};

fn brute_mean_var(xs: &[u32], w: u64) -> (u64, u128) {
    // returns (Σx, Σ (W·x − Σx)²) over the slice
    let s: u64 = xs.iter().map(|&x| x as u64).sum();
    let dev: u128 = xs
        .iter()
        .map(|&x| {
            let d = (w as i128) * (x as i128) - s as i128;
            (d * d) as u128
        })
        .sum();
    (s, dev)
}

fn levels() -> Vec<u32> {
    let mut v = Vec::new();
    let mut x: u64 = 12345;
    for _ in 0..300 {
        x = (x * 1103515245 + 12345) % 2147483648;
        v.push((x % 50000) as u32);
    }
    v
}

#[test]
fn windowed_matches_recomputation_after_warm_up() {
    let w: u64 = 50;
    let xs = levels();
    let mut st = WindowedStats::new(w);
    for (n, &x) in xs.iter().enumerate() {
        st.update(x);
        let seen = n + 1;
        if seen as u64 >= w {
            let last = &xs[seen - w as usize..seen];
            let (s, dev) = brute_mean_var(last, w);
            assert_eq!(st.mean_num(), s);
            assert_eq!(st.var_num() * w as u128, dev);
        }
    }
}

#[test]
fn windowed_warm_up_accumulates_second_moment() {
    let mut st = WindowedStats::new(4);
    st.update(2);
    st.update(4);
    // mean = (2 + 4) / 4, var = (4 + 16) / 4 before the window fills
    assert_eq!(st.mean_num(), 6);
    assert_eq!(st.var_num(), 4 * 20);
    st.update(6);
    st.update(8);
    // full: var = Σx²/W − (Σx/W)² = (4·120 − 400) / 16
    assert_eq!(st.mean_num(), 20);
    assert_eq!(st.var_num(), 80);
    st.update(10);
    // window 4, 6, 8, 10: Σ = 28, Σx² = 216
    assert_eq!(st.mean_num(), 28);
    assert_eq!(st.var_num(), 4 * 216 - 28 * 28);
}

#[test]
fn windowed_constant_input_has_zero_variance() {
    let w: u64 = 50;
    let mut st = WindowedStats::new(w);
    for _ in 0..w {
        st.update(777);
    }
    assert_eq!(st.mean_num(), 777 * w);
    assert_eq!(st.var_num(), 0);
}

#[test]
fn windowed_variance_never_negative_on_collapse() {
    let w: u64 = 3;
    let mut st = WindowedStats::new(w);
    for &x in &[16_000_000u32, 16_000_000, 16_000_000, 0, 0, 0, 1, 1, 1] {
        st.update(x);
        let v = st.var_num();
        assert!(v < u128::MAX / 2);
    }
    assert_eq!(st.var_num(), 0);
    assert_eq!(st.mean_num(), 3);
}

#[test]
fn global_matches_recomputation() {
    let w: u64 = 50;
    let xs = levels();
    let mut g = GlobalStats::new(w);
    for (n, &x) in xs.iter().enumerate() {
        g.update(x);
        let seen = (n + 1) as u128;
        let (s, dev) = brute_mean_var(&xs[..n + 1], (n + 1) as u64);
        assert_eq!(g.count() as u128, seen);
        // mean: total / (W·n) == Σx / n
        assert_eq!(g.mean_num(), w as u128 * s as u128);
        // variance: var_num / (W·n)² == Σ (n·x − Σx)² / n³
        assert_eq!(g.var_num() * seen, dev * (w as u128) * (w as u128));
    }
}

#[test]
fn global_first_level_is_the_mean() {
    let mut g = GlobalStats::new(10);
    g.update(42);
    assert_eq!(g.count(), 1);
    assert_eq!(g.mean_num(), 420);
    assert_eq!(g.var_num(), 0);
}

#[test]
fn global_constant_input_mean() {
    let w: u64 = 50;
    let mut g = GlobalStats::new(w);
    for _ in 0..w {
        g.update(9);
    }
    assert_eq!(g.mean_num(), 9 * w as u128 * w as u128);
    assert_eq!(g.var_num(), 0);
}

#[test]
fn global_re_anchor_takes_windowed_values() {
    let w: u64 = 4;
    let mut g = GlobalStats::new(w);
    for &x in &[1u32, 5, 9, 2, 7] {
        g.update(x);
    }
    // windowed mean 20 / 4 and variance 80 / 16
    g.re_anchor(20, 80);
    let c = g.count() as u128;
    assert_eq!(c, 5);
    assert_eq!(g.mean_num() * w as u128, 20 * (w as u128 * c));
    assert_eq!(g.var_num() * (w as u128 * w as u128), 80 * (w as u128 * c) * (w as u128 * c));
    g.update(5);
    // the next level keeps the weight 1 / count: mean = (5·5 + 5) / 6
    assert_eq!(g.mean_num(), 5 * 20 + 4 * 5);
}
