use copper::process::PbrState;

#[test]
fn default_state_needs_calculation() {
    let state = PbrState::default();
    assert!(state.need_calculate());
    assert!(!state.is_calculated());
}

#[test]
fn calculated_state_is_calculated() {
    let state = PbrState::Calculated;
    assert!(state.is_calculated());
    assert!(!state.need_calculate());
}
