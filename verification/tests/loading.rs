use netstrat::graph_state::Bounds;
use netstrat::graph_state::BoundsSet;
use netstrat::graph_state::Interval;
use netstrat::graph_state::LoadingState;
use netstrat::graph_state::Props;
use netstrat::graph_state::State;

fn set(ranges: &[(u64, u64)]) -> BoundsSet {
    BoundsSet { vals: ranges.iter().map(|&(start, end)| Bounds { start, end }).collect() }
}

#[test]
fn merge_keeps_both_runs_of_ranges() {
    let merged = set(&[(0, 5)]).merge(&set(&[(10, 20), (30, 40)]));
    assert_eq!(merged.vals, vec![
        Bounds { start: 0, end: 5 },
        Bounds { start: 10, end: 20 },
        Bounds { start: 30, end: 40 },
    ]);
}

#[test]
fn subtract_clips_the_overlap() {
    let wanted = set(&[(10, 20)]);
    let loaded = set(&[(15, 30)]);
    let leftover = wanted.subtract(&loaded).unwrap();
    assert_eq!(leftover.vals, vec![Bounds { start: 10, end: 14 }]);
}

#[test]
fn subtract_splits_around_a_hole() {
    let wanted = set(&[(0, 100)]);
    let loaded = set(&[(40, 60)]);
    let leftover = wanted.subtract(&loaded).unwrap();
    assert_eq!(leftover.vals, vec![Bounds { start: 0, end: 39 }, Bounds { start: 61, end: 100 }]);
}

#[test]
fn subtract_of_a_covered_request_is_none() {
    let wanted = set(&[(10, 20), (25, 30)]);
    let loaded = set(&[(0, 22), (23, 40)]);
    assert!(wanted.subtract(&loaded).is_none());
}

#[test]
fn loading_state_needs_work_a_step_and_a_page() {
    let missing = set(&[(10, 20)]);
    assert!(LoadingState::new(&set(&[]), 60, 10).is_none());
    assert!(LoadingState::new(&missing, 0, 10).is_none());
    assert!(LoadingState::new(&missing, 60, 0).is_none());
    let plan = LoadingState::new(&missing, 60, 10).unwrap();
    assert_eq!(plan.to_load.vals, missing.vals);
    assert_eq!(plan.step, 60);
    assert_eq!(plan.limit, 10);
}

#[test]
fn apply_props_plans_exactly_the_missing_part() {
    let mut state = State::new();
    let first = Props { bounds: set(&[(100, 200)]), interval: Interval::Minute, limit: 500 };
    state.apply_props(&first);
    assert_eq!(state.loading.to_load.vals, vec![Bounds { start: 100, end: 200 }]);
    assert_eq!(state.loading.step, 60);
    assert_eq!(state.loading.limit, 500);
    assert_eq!(state.props.limit, 500);

    // the request grows to the right: only the new tail is planned
    let second = Props { bounds: set(&[(150, 300)]), interval: Interval::Hour, limit: 200 };
    state.apply_props(&second);
    assert_eq!(state.loading.to_load.vals, vec![Bounds { start: 201, end: 300 }]);
    assert_eq!(state.loading.step, 3600);
    assert_eq!(state.props.limit, 200);
}

#[test]
fn apply_props_with_nothing_new_changes_nothing() {
    let mut state = State::new();
    let first = Props { bounds: set(&[(100, 200)]), interval: Interval::Day, limit: 10 };
    state.apply_props(&first);
    let planned = state.loading.to_load.vals.clone();

    // the same request again is already covered
    let again = Props { bounds: set(&[(120, 180)]), interval: Interval::Minute, limit: 99 };
    state.apply_props(&again);
    assert_eq!(state.loading.to_load.vals, planned);
    assert_eq!(state.loading.step, 86400);
    assert_eq!(state.props.limit, 10);

    // a page that holds nothing cannot be planned for
    let zero_limit = Props { bounds: set(&[(500, 600)]), interval: Interval::Minute, limit: 0 };
    state.apply_props(&zero_limit);
    assert_eq!(state.loading.step, 86400);
    assert_eq!(state.props.limit, 10);
}
