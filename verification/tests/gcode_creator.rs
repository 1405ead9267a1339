use camcam::gcode_creator::{
    backoff_multiplier, bit_goes_down, next_cut_action, set_threads, try_get_threads, CutAction, ThreadBudget,
};

#[test]
fn thread_count_has_a_floor() {
    let mut budget = ThreadBudget::default();
    set_threads(&mut budget, 2);
    let mut taken = 0;
    while budget.try_take_thread() {
        taken += 1;
    }
    assert_eq!(taken, 4);
    assert_eq!(try_get_threads(&budget), 4);
}

#[test]
fn default_budget_allows_eight() {
    let mut budget = ThreadBudget::default();
    assert_eq!(try_get_threads(&budget), 0);
    let mut taken = 0;
    while budget.try_take_thread() {
        taken += 1;
    }
    assert_eq!(taken, 8);
}

#[test]
fn taking_and_releasing_restores_the_count() {
    let mut budget = ThreadBudget::default();
    set_threads(&mut budget, 10);
    assert!(budget.try_take_thread());
    assert_eq!(try_get_threads(&budget), 1);
    budget.release_thread();
    assert_eq!(try_get_threads(&budget), 0);
}

#[test]
fn backoff_doubles_then_stops() {
    assert_eq!(backoff_multiplier(0), 1);
    assert_eq!(backoff_multiplier(2), 1);
    assert_eq!(backoff_multiplier(3), 8);
    assert_eq!(backoff_multiplier(5), 32);
    assert_eq!(backoff_multiplier(8), 256);
    assert_eq!(backoff_multiplier(9), 256);
    assert_eq!(backoff_multiplier(1000), 256);
}

#[test]
fn bit_down_needs_parity_and_no_outline() {
    assert!(bit_goes_down(true, 1, true, false));
    assert!(!bit_goes_down(true, 2, true, false));
    assert!(bit_goes_down(true, 2, false, false));
    assert!(!bit_goes_down(true, 1, true, true));
    assert!(!bit_goes_down(false, 1, true, false));
}

#[test]
fn cut_actions() {
    assert_eq!(next_cut_action(true, false), CutAction::Plunge);
    assert_eq!(next_cut_action(true, true), CutAction::Continue);
    assert_eq!(next_cut_action(false, true), CutAction::Lift);
    assert_eq!(next_cut_action(false, false), CutAction::StayUp);
}
