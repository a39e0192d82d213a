use sortvis::control::{
    ascending, parse_size, push_record, throttle_decision, ControlContext, RunRecord,
    ThrottleAction, DEFAULT_DELAY_MICROS,
};
use sortvis::methods::{methods, modifiers};
use sortvis::sorter::State;

#[test]
fn throttle_parks_when_paused_and_paces_otherwise() {
    let paused = ControlContext { paused: true, delay: 250 };
    assert_eq!(throttle_decision(&paused), ThrottleAction::Park);
    let running = ControlContext { paused: false, delay: 250 };
    assert_eq!(throttle_decision(&running), ThrottleAction::Sleep(250));
    let fresh = ControlContext::new();
    assert!(!fresh.paused);
    assert_eq!(fresh.delay, DEFAULT_DELAY_MICROS);
}

#[test]
fn ascending_generates_one_through_n() {
    assert_eq!(ascending(5), vec![1, 2, 3, 4, 5]);
    assert!(ascending(0).is_empty());
    assert_eq!(ascending(1), vec![1]);
}

#[test]
fn parse_size_accepts_exactly_positive_decimal_u32() {
    assert_eq!(parse_size("12"), Some(12));
    assert_eq!(parse_size("007"), Some(7));
    assert_eq!(parse_size("4294967295"), Some(u32::MAX));
    assert_eq!(parse_size("4294967296"), None);
    assert_eq!(parse_size("99999999999999999999"), None);
    assert_eq!(parse_size("0"), None);
    assert_eq!(parse_size("000"), None);
    assert_eq!(parse_size(""), None);
    assert_eq!(parse_size("abc"), None);
    assert_eq!(parse_size("1 2"), None);
    assert_eq!(parse_size("-3"), None);
    assert_eq!(parse_size("+3"), None);
}

#[test]
fn history_keeps_the_four_most_recent_runs() {
    let mut history: Vec<RunRecord> = Vec::new();
    for k in 0..6u32 {
        push_record(
            &mut history,
            RunRecord { name: "bubble", size: k, delay: 0, elapsed_micros: 10 },
        );
        assert!(history.len() <= 4);
    }
    let sizes: Vec<u32> = history.iter().map(|r| r.size).collect();
    assert_eq!(sizes, vec![2, 3, 4, 5]);
}

#[test]
fn elapsed_needs_both_markers_in_order() {
    let mut st = State {
        sorting: false,
        data: vec![],
        step: None,
        start_time: None,
        stop_time: None,
    };
    assert_eq!(st.elapsed_micros(), None);
    st.start_time = Some(40);
    assert_eq!(st.elapsed_micros(), None);
    st.stop_time = Some(100);
    assert_eq!(st.elapsed_micros(), Some(60));
    st.stop_time = Some(10);
    assert_eq!(st.elapsed_micros(), None);
}

#[test]
fn registries_list_the_expected_algorithms() {
    let names: Vec<&str> = methods().iter().map(|m| m.name).collect();
    assert_eq!(
        names,
        vec!["bubble", "bogo", "quick", "insertion", "selection", "gnome", "shell", "cocktail"]
    );
    let mods: Vec<&str> = modifiers().iter().map(|m| m.name).collect();
    assert_eq!(mods, vec!["shuffle", "invert", "pyramid"]);
}
