use sortvis::methods::MethodId;
use sortvis::sorter::{Sorter, TickOutcome};
use sortvis::Step;

fn run_to_completion(s: &mut Sorter, now: u64) -> u64 {
    let mut ticks: u64 = 0;
    loop {
        match s.tick(now) {
            TickOutcome::Advanced => {
                ticks += 1;
                assert!(ticks < 50_000_000, "run did not complete");
            }
            TickOutcome::Completed => return ticks,
            TickOutcome::Idle => panic!("no worker in flight"),
        }
    }
}

fn sorted_copy(v: &[u32]) -> Vec<u32> {
    let mut c = v.to_vec();
    c.sort_unstable();
    c
}

#[test]
fn every_sort_completes_strictly_increasing_on_permutation() {
    let perms: [Vec<u32>; 3] = [
        vec![5, 3, 4, 1, 2],
        vec![2, 1, 3, 5, 4],
        vec![1, 2, 3, 4, 5],
    ];
    let sorts = [
        MethodId::Bubble,
        MethodId::Quick,
        MethodId::Insertion,
        MethodId::Selection,
        MethodId::Gnome,
        MethodId::Shell,
        MethodId::Cocktail,
    ];
    for m in sorts {
        for p in &perms {
            let mut s = Sorter::new(p.clone());
            s.set_method(m);
            s.start(false, 0);
            run_to_completion(&mut s, 0);
            assert_eq!(s.state.data, vec![1, 2, 3, 4, 5], "{m:?} failed on {p:?}");
            for w in s.state.data.windows(2) {
                assert!(w[0] < w[1]);
            }
        }
    }
}

#[test]
fn bogo_completes_strictly_increasing_on_small_permutation() {
    let mut s = Sorter::new(vec![3, 1, 4, 2]);
    s.set_method(MethodId::Bogo);
    s.start(false, 0);
    run_to_completion(&mut s, 0);
    assert_eq!(s.state.data, vec![1, 2, 3, 4]);
}

#[test]
fn buffer_length_constant_across_every_run() {
    let all = [
        MethodId::Bubble,
        MethodId::Bogo,
        MethodId::Quick,
        MethodId::Insertion,
        MethodId::Selection,
        MethodId::Gnome,
        MethodId::Shell,
        MethodId::Cocktail,
        MethodId::Shuffle,
        MethodId::Invert,
        MethodId::Pyramid,
    ];
    for m in all {
        let data: Vec<u32> = vec![4, 2, 2, 7, 1, 3];
        let before = data.len();
        let mut s = Sorter::new(data);
        s.set_method(m);
        s.start(false, 0);
        assert_eq!(s.state.data.len(), before, "{m:?} resized during start");
        run_to_completion(&mut s, 0);
        assert_eq!(s.state.data.len(), before, "{m:?} resized the buffer");
    }
}

#[test]
fn stop_right_after_first_swap_leaves_exactly_that_mutation() {
    let mut s = Sorter::new(vec![5, 3, 4, 1, 2]);
    s.set_method(MethodId::Bubble);
    s.start(true, 0);
    loop {
        match s.tick(0) {
            TickOutcome::Advanced => {
                if matches!(s.state.step, Some(Step::Swap(_, _))) {
                    break;
                }
            }
            _ => panic!("bubble made no swap on an unsorted buffer"),
        }
    }
    s.stop();
    assert!(!s.is_sorting());
    assert!(s.state.step.is_none());
    assert_eq!(s.state.data, vec![3, 5, 4, 1, 2]);
    assert!(matches!(s.tick(0), TickOutcome::Idle));
    assert_eq!(s.state.data, vec![3, 5, 4, 1, 2]);
}

#[test]
fn start_while_running_is_a_no_op() {
    let mut s = Sorter::new(vec![3, 1, 2]);
    s.set_method(MethodId::Insertion);
    s.start(true, 100);
    assert!(s.is_sorting());
    assert_eq!(s.state.start_time, Some(100));
    s.start(true, 999);
    assert_eq!(s.state.start_time, Some(100), "second start changed the stamp");
    assert!(s.is_sorting());
    run_to_completion(&mut s, 150);
    assert_eq!(s.state.data, vec![1, 2, 3]);
    assert_eq!(s.state.start_time, Some(100));
    assert_eq!(s.state.stop_time, Some(150));
    assert_eq!(s.state.elapsed_micros(), Some(50));
}

#[test]
fn pause_between_ticks_never_changes_the_outcome() {
    let mut uninterrupted = Sorter::new(vec![3, 1, 2]);
    uninterrupted.set_method(MethodId::Insertion);
    uninterrupted.start(false, 0);
    run_to_completion(&mut uninterrupted, 0);

    let mut paused = Sorter::new(vec![3, 1, 2]);
    paused.set_method(MethodId::Insertion);
    paused.start(false, 0);
    // run up to and including the first swap, then pause there
    loop {
        match paused.tick(0) {
            TickOutcome::Advanced => {
                if matches!(paused.state.step, Some(Step::Swap(_, _))) {
                    break;
                }
            }
            _ => panic!("insertion made no swap on an unsorted buffer"),
        }
    }
    // a pause suspends the worker between ticks; it touches no state
    let snapshot = paused.state.data.clone();
    assert!(paused.is_sorting());
    assert_eq!(paused.state.data, snapshot);
    // resume: the remaining operations replay as if never interrupted
    loop {
        match paused.tick(0) {
            TickOutcome::Advanced => {}
            TickOutcome::Completed => break,
            TickOutcome::Idle => panic!("worker lost"),
        }
    }
    assert_eq!(paused.state.data, uninterrupted.state.data);
    assert_eq!(paused.state.data, vec![1, 2, 3]);
}

#[test]
fn insertion_trace_orders_the_early_swap_first() {
    let mut s = Sorter::new(vec![3, 1, 2]);
    s.set_method(MethodId::Insertion);
    s.start(false, 0);
    let mut steps: Vec<Step> = Vec::new();
    loop {
        match s.tick(0) {
            TickOutcome::Advanced => steps.push(s.state.step.expect("advanced without a step")),
            TickOutcome::Completed => break,
            TickOutcome::Idle => panic!("worker lost"),
        }
    }
    assert_eq!(s.state.data, vec![1, 2, 3]);
    let touches = |st: &Step, a: usize, b: usize| match *st {
        Step::Swap(x, y) => (x == a && y == b) || (x == b && y == a),
        Step::Read(_) => false,
    };
    let first_01 = steps.iter().position(|st| touches(st, 0, 1));
    let first_12 = steps.iter().position(|st| touches(st, 1, 2));
    let lo = first_01.expect("no swap ever touched indices 0 and 1");
    let hi = first_12.expect("no swap ever touched indices 1 and 2");
    assert!(lo < hi, "swap on (1,2) came before the one on (0,1)");
}

#[test]
fn engine_publishes_the_algorithms_trace_in_order() {
    let data: Vec<u32> = vec![4, 2, 3, 1];
    let mut iface = sortvis::sorter::Interface::new(data.clone());
    sortvis::methods::insertion(&mut iface);
    let direct = iface.into_trace();

    let mut s = Sorter::new(data);
    s.set_method(MethodId::Insertion);
    s.start(false, 0);
    let mut published: Vec<Step> = Vec::new();
    loop {
        match s.tick(0) {
            TickOutcome::Advanced => published.push(s.state.step.expect("advanced without a step")),
            TickOutcome::Completed => break,
            TickOutcome::Idle => panic!("worker lost"),
        }
    }
    assert_eq!(published, direct);
}

#[test]
fn shuffle_preserves_the_multiset_of_values() {
    for data in [vec![], vec![9], vec![2, 2, 1], vec![5, 4, 3, 2, 1, 5, 4]] {
        let expected = sorted_copy(&data);
        let mut s = Sorter::new(data);
        s.set_method(MethodId::Shuffle);
        s.start(false, 0);
        run_to_completion(&mut s, 0);
        assert_eq!(sorted_copy(&s.state.data), expected);
    }
}

#[test]
fn completion_clears_step_and_returns_to_idle() {
    let mut s = Sorter::new(vec![2, 1]);
    s.set_method(MethodId::Selection);
    s.start(false, 0);
    run_to_completion(&mut s, 0);
    assert!(!s.is_sorting());
    assert!(s.state.step.is_none());
    assert!(s.state.stop_time.is_none());
    assert!(matches!(s.tick(0), TickOutcome::Idle));
}

#[test]
fn a_new_run_can_start_after_stop() {
    let mut s = Sorter::new(vec![4, 3, 2, 1]);
    s.set_method(MethodId::Gnome);
    s.start(false, 0);
    s.tick(0);
    s.stop();
    assert!(!s.is_sorting());
    s.set_method(MethodId::Quick);
    s.start(false, 0);
    run_to_completion(&mut s, 0);
    let mut want = s.state.data.clone();
    want.sort_unstable();
    assert_eq!(s.state.data, want);
}
