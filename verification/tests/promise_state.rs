use df::promise_state::PromiseState;

type State = PromiseState<u32, String>;

#[test]
fn is_done_only_on_terminal_states() {
    assert!(!State::Empty.is_done());
    assert!(!State::InFlight.is_done());
    assert!(State::Succeeded(1).is_done());
    assert!(State::Failed("e".to_owned()).is_done());
}

#[test]
fn replace_swaps_and_returns_previous() {
    let mut state = State::Succeeded(5);
    let prev = state.replace(State::InFlight);
    assert!(matches!(prev, PromiseState::Succeeded(5)));
    assert!(matches!(state, PromiseState::InFlight));
}

#[test]
fn get_mut_reaches_only_a_success() {
    let mut state = State::Succeeded(5);
    if let Some(v) = state.get_mut() {
        *v = 9;
    } else {
        panic!("a success must hand its value out");
    }
    assert!(matches!(state, PromiseState::Succeeded(9)));

    let mut failed = State::Failed("e".to_owned());
    assert!(failed.get_mut().is_none());
    let mut empty = State::Empty;
    assert!(empty.get_mut().is_none());
    let mut in_flight = State::InFlight;
    assert!(in_flight.get_mut().is_none());
}

#[test]
fn default_state_is_empty() {
    let state: State = Default::default();
    assert!(matches!(state, PromiseState::Empty));
}

#[test]
fn merge_terminal_candidate_is_always_adopted() {
    let mut state = State::Succeeded(1);
    assert!(state.merge(State::Succeeded(2)));
    assert!(matches!(state, PromiseState::Succeeded(2)));

    let mut state = State::Succeeded(1);
    assert!(state.merge(State::Failed("e".to_owned())));
    assert!(matches!(state, PromiseState::Failed(_)));
}

#[test]
fn merge_pending_candidate_never_blanks_a_terminal_state() {
    let mut state = State::Succeeded(1);
    assert!(!state.merge(State::InFlight));
    assert!(matches!(state, PromiseState::Succeeded(1)));

    let mut state = State::Failed("e".to_owned());
    assert!(!state.merge(State::Empty));
    assert!(matches!(state, PromiseState::Failed(_)));
}

#[test]
fn merge_over_a_non_terminal_state_always_adopts() {
    let mut state = State::Empty;
    assert!(state.merge(State::InFlight));
    assert!(matches!(state, PromiseState::InFlight));

    let mut state = State::InFlight;
    assert!(state.merge(State::Empty));
    assert!(matches!(state, PromiseState::Empty));

    let mut state = State::InFlight;
    assert!(state.merge(State::Succeeded(4)));
    assert!(matches!(state, PromiseState::Succeeded(4)));
}
