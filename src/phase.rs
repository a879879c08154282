use rand::Rng;
use vstd::prelude::*;

verus! {

/// Sub-variant of the `Drop` phase.
#[derive(Debug, Clone, Copy, PartialEq, Eq, Structural)]
pub enum Drop {
    State0,
    State1,
    State2,
    State3,
}

/// Sub-variant of the `Break` phase.
#[derive(Debug, Clone, Copy, PartialEq, Eq, Structural)]
pub enum Break {
    State0,
    State1,
    State2,
    State3,
}

/// Structural classification of the music.
#[derive(Debug, Clone, Copy, PartialEq, Eq, Structural)]
pub enum State {
    Break(Break),
    Drop(Drop),
}

impl Drop {
    /// The sub-variant numbered by a draw from `{0, 1, 2, 3}`; larger draws give the last.
    pub open spec fn of_draw(draw: u8) -> Drop {
        match draw {
            0 => Drop::State0,
            1 => Drop::State1,
            2 => Drop::State2,
            _ => Drop::State3,
        }
    }

    /// The sub-variant numbered by a uniform draw from `{0, 1, 2, 3}`.
    pub fn from_draw(draw: u8) -> (r: Drop)
        ensures
            r == Drop::of_draw(draw),
    {
        match draw {
            0 => Drop::State0,
            1 => Drop::State1,
            2 => Drop::State2,
            _ => Drop::State3,
        }
    }
}

impl Break {
    /// The sub-variant numbered by a draw from `{0, 1, 2, 3}`; larger draws give the last.
    pub open spec fn of_draw(draw: u8) -> Break {
        match draw {
            0 => Break::State0,
            1 => Break::State1,
            2 => Break::State2,
            _ => Break::State3,
        }
    }

    /// The sub-variant numbered by a uniform draw from `{0, 1, 2, 3}`.
    pub fn from_draw(draw: u8) -> (r: Break)
        ensures
            r == Break::of_draw(draw),
    {
        match draw {
            0 => Break::State0,
            1 => Break::State1,
            2 => Break::State2,
            _ => Break::State3,
        }
    }
}

/// Where the discriminating signal stands relative to the phase threshold.
#[derive(Debug, Clone, Copy, PartialEq, Eq, Structural)]
pub enum Discriminant {
    Above,
    Below,
    AtThreshold,
}

/// The phase after one cycle: a `Break` under a signal above the threshold
/// becomes a `Drop`, a `Drop` under a signal below it becomes a `Break`, both
/// with the sub-variant given by the draw; anything else stays.
pub open spec fn spec_next_state(state: State, d: Discriminant, draw: u8) -> State {
    match (state, d) {
        (State::Break(_), Discriminant::Above) => State::Drop(Drop::of_draw(draw)),
        (State::Drop(_), Discriminant::Below) => State::Break(Break::of_draw(draw)),
        _ => state,
    }
}

/// One transition of the phase state machine.
pub fn next_state(state: State, d: Discriminant, draw: u8) -> (r: State)
    ensures
        r == spec_next_state(state, d, draw),
{
    match (state, d) {
        (State::Break(_), Discriminant::Above) => State::Drop(Drop::from_draw(draw)),
        (State::Drop(_), Discriminant::Below) => State::Break(Break::from_draw(draw)),
        _ => state,
    }
}

/// A signal above the threshold always leaves a `Break` for a `Drop`, and one
/// below it always leaves a `Drop` for a `Break`, whatever the sub-variant
/// that was active and whatever the draw.
pub proof fn lemma_threshold_switches_phase(b: Break, d: Drop, draw: u8)
    ensures
        spec_next_state(State::Break(b), Discriminant::Above, draw) is Drop,
        spec_next_state(State::Drop(d), Discriminant::Below, draw) is Break,
        spec_next_state(State::Break(b), Discriminant::Below, draw) == State::Break(b),
        spec_next_state(State::Drop(d), Discriminant::Above, draw) == State::Drop(d),
{
}

/// Relies on `rand::Rng::gen_range` over `0..=3` with the thread-local
/// generator (rand 0.8): the value drawn lies in the range.
#[verifier::external_body]
pub(crate) fn draw_sub_state() -> (r: u8)
    ensures
        r <= 3,
{
    rand::thread_rng().gen_range(0..=3u8)
}

/// A z-score `num / sqrt(den_sq)` held exactly. It is undefined when `den_sq`
/// is zero (no spread in the baseline); readers take it as neutral.
#[derive(Debug, Clone, Copy, PartialEq, Eq, Structural)]
pub struct Gain {
    pub num: i64,
    pub den_sq: u128,
}

/// The published result of one analysis cycle.
#[derive(Debug, Clone)]
pub struct Phase {
    pub gains: Vec<Gain>,
    pub state: State,
    pub reset: bool,
}

impl Phase {
    /// The snapshot before any cycle: neutral gains and `Break(State0)`.
    pub fn new(bands: usize) -> (r: Phase)
        ensures
            r.gains@.len() == bands,
            forall|i: int| 0 <= i < bands ==> r.gains@[i] == (Gain { num: 0, den_sq: 0 }),
            r.state == State::Break(Break::State0),
            !r.reset,
    {
        let mut gains: Vec<Gain> = Vec::new();
        let mut i: usize = 0;
        while i < bands
            invariant
                i <= bands,
                gains@.len() == i,
                forall|j: int| 0 <= j < i ==> gains@[j] == (Gain { num: 0, den_sq: 0 }),
            decreases bands - i,
        {
            gains.push(Gain { num: 0, den_sq: 0 });
            i = i + 1;
        }
        Phase { gains, state: State::Break(Break::State0), reset: false }
    }
}

/// Asks for a recalibration: the next analysis cycle re-anchors the lifetime
/// statistics to the windowed ones and returns to `Break(State0)`.
pub fn reset_global(phase: &mut Phase)
    ensures
        final(phase).reset,
        final(phase).gains@ == old(phase).gains@,
        final(phase).state == old(phase).state,
{
    phase.reset = true;
}

} // verus!
