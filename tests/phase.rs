use gseq::{discriminant, next_state, reset_global, Break, Discriminant, Drop, Gain, Phase, State};

#[test]
fn above_threshold_leaves_every_break() {
    for b in [Break::State0, Break::State1, Break::State2, Break::State3] {
        for draw in 0..4u8 {
            let s = next_state(State::Break(b), Discriminant::Above, draw);
            assert!(matches!(s, State::Drop(_)));
        }
    }
    assert_eq!(next_state(State::Break(Break::State2), Discriminant::Above, 1), State::Drop(Drop::State1));
}

#[test]
fn below_threshold_leaves_every_drop() {
    for d in [Drop::State0, Drop::State1, Drop::State2, Drop::State3] {
        for draw in 0..4u8 {
            let s = next_state(State::Drop(d), Discriminant::Below, draw);
            assert!(matches!(s, State::Break(_)));
        }
    }
    assert_eq!(next_state(State::Drop(Drop::State0), Discriminant::Below, 3), State::Break(Break::State3));
    assert_eq!(next_state(State::Drop(Drop::State0), Discriminant::Below, 200), State::Break(Break::State3));
}

#[test]
fn other_cycles_keep_the_state() {
    let b = State::Break(Break::State1);
    let d = State::Drop(Drop::State2);
    assert_eq!(next_state(b, Discriminant::Below, 0), b);
    assert_eq!(next_state(b, Discriminant::AtThreshold, 0), b);
    assert_eq!(next_state(d, Discriminant::Above, 0), d);
    assert_eq!(next_state(d, Discriminant::AtThreshold, 0), d);
}

#[test]
fn discriminant_against_one_fifth() {
    // 1 / sqrt(25) is exactly the threshold
    assert_eq!(discriminant(1, 25), Discriminant::AtThreshold);
    assert_eq!(discriminant(1, 24), Discriminant::Above);
    assert_eq!(discriminant(1, 26), Discriminant::Below);
    assert_eq!(discriminant(2, 25), Discriminant::Above);
    assert_eq!(discriminant(-3, 1), Discriminant::Below);
    assert_eq!(discriminant(5, 0), Discriminant::Above);
    assert_eq!(discriminant(-5, 0), Discriminant::Below);
    // 0 / 0 is taken as the neutral 0
    assert_eq!(discriminant(0, 0), Discriminant::Below);
    assert_eq!(discriminant(0, 7), Discriminant::Below);
}

#[test]
fn reset_request_sets_flag_only() {
    let mut p = Phase::new(3);
    assert_eq!(p.gains.len(), 3);
    assert!(p.gains.iter().all(|g| *g == Gain { num: 0, den_sq: 0 }));
    assert_eq!(p.state, State::Break(Break::State0));
    assert!(!p.reset);
    reset_global(&mut p);
    assert!(p.reset);
    assert_eq!(p.gains.len(), 3);
    assert_eq!(p.state, State::Break(Break::State0));
}
