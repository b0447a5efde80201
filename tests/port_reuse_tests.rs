use port_reuse::{
    any_triple_repeat, assess, classify, cross_trial_frequency_of, find_repeated_used_ports,
    PortCounts, Trial, Verdict, DEFAULT_ITERATIONS, SLEEP_MILLIS, TOTAL_TRIALS,
};

fn trial_of(ports: &[u16]) -> PortCounts {
    let mut trial = Trial::new(ports.len());
    trial.run_test(&ports.to_vec());
    trial.results
}

fn no_repeats(start: u16, n: u16) -> Vec<u16> {
    (0..n).map(|k| start + k).collect()
}

#[test]
fn new_trial_is_empty() {
    let trial = Trial::new(256);
    assert_eq!(trial.iterations, 256);
    assert_eq!(trial.sleep_millis, SLEEP_MILLIS);
    assert_eq!(trial.sleep_millis, 1);
    assert_eq!(trial.results.len(), 0);
}

#[test]
fn run_constants() {
    assert_eq!(TOTAL_TRIALS, 10);
    assert_eq!(DEFAULT_ITERATIONS, 256);
}

#[test]
fn singletons_are_pruned() {
    let r = trial_of(&[1, 2, 2, 3, 3, 3, 4]);
    assert_eq!(r.len(), 2);
    assert_eq!(r.count(1), 0);
    assert_eq!(r.count(2), 2);
    assert_eq!(r.count(3), 3);
    assert_eq!(r.count(4), 0);
    for &(_, c) in r.entries.iter() {
        assert!(c >= 2);
    }
}

#[test]
fn empty_trial_keeps_nothing() {
    let r = trial_of(&[]);
    assert_eq!(r.len(), 0);
}

#[test]
fn record_and_remove_singletons() {
    let mut t = PortCounts::new();
    t.record(5);
    t.record(6);
    t.record(5);
    assert_eq!(t.count(5), 2);
    assert_eq!(t.count(6), 1);
    t.remove_singletons();
    assert_eq!(t.len(), 1);
    assert_eq!(t.count(5), 2);
    assert_eq!(t.count(6), 0);
}

#[test]
fn run_test_replaces_earlier_result() {
    let mut trial = Trial::new(4);
    trial.run_test(&vec![9, 9, 9, 9]);
    trial.run_test(&vec![7, 7, 8, 1]);
    assert_eq!(trial.results.count(9), 0);
    assert_eq!(trial.results.count(7), 2);
    assert_eq!(trial.results.len(), 1);
}

#[test]
fn cross_trial_counts_trials_not_occurrences() {
    let mut results = vec![trial_of(&[7; 10])];
    for k in 0..9u16 {
        results.push(trial_of(&no_repeats(1000 * (k + 1), 8)));
    }
    let freq = cross_trial_frequency_of(&results);
    assert_eq!(freq.count(7), 1);
    assert_eq!(freq.len(), 1);
}

#[test]
fn cross_trial_counts_each_trial_once() {
    let results = vec![
        trial_of(&[7, 7, 8, 8]),
        trial_of(&[7, 7, 7, 7, 7]),
        trial_of(&[8, 8, 9]),
        trial_of(&[1, 2, 3]),
    ];
    let freq = cross_trial_frequency_of(&results);
    assert_eq!(freq.count(7), 2);
    assert_eq!(freq.count(8), 2);
    assert_eq!(freq.count(9), 0);
    assert_eq!(freq.len(), 2);
}

#[test]
fn ranking_sorted_and_truncated() {
    let results = vec![
        trial_of(&[50, 50, 40, 40, 30, 30, 20, 20]),
        trial_of(&[50, 50, 40, 40, 30, 30]),
        trial_of(&[60, 60, 40, 40]),
        trial_of(&[60, 60]),
    ];
    let ranked = find_repeated_used_ports(&results);
    assert_eq!(ranked, vec![(40, 3), (30, 2), (50, 2)]);
}

#[test]
fn ranking_shorter_than_three() {
    let results = vec![trial_of(&[5, 5, 6, 6]), trial_of(&[6, 6])];
    let ranked = find_repeated_used_ports(&results);
    assert_eq!(ranked, vec![(6, 2), (5, 1)]);
}

#[test]
fn ranking_empty_without_repeats() {
    let results = vec![trial_of(&[1, 2, 3]), trial_of(&[4, 5])];
    assert!(find_repeated_used_ports(&results).is_empty());
    assert!(find_repeated_used_ports(&vec![]).is_empty());
}

#[test]
fn triple_repeat_flag() {
    let some = vec![trial_of(&[1, 1]), trial_of(&[2, 2, 2])];
    assert!(any_triple_repeat(&some));
    let none = vec![trial_of(&[1, 1]), trial_of(&[2, 2, 3, 3])];
    assert!(!any_triple_repeat(&none));
}

#[test]
fn classify_is_repeatable() {
    let ranked = vec![(40000u16, 4usize), (3, 2)];
    let first = classify(&ranked, true);
    let second = classify(&ranked, true);
    assert_eq!(first, second);
    assert_eq!(first, Verdict::High(40000));
}

#[test]
fn scenario_a_no_repeats_is_low() {
    let results: Vec<PortCounts> = (0..10u16).map(|k| trial_of(&no_repeats(100 * k, 50))).collect();
    let a = assess(&results);
    assert!(a.ranked.is_empty());
    assert!(!a.any_triple_repeat);
    assert_eq!(a.verdict, Verdict::Low);
}

#[test]
fn scenario_b_single_repeat_is_low() {
    let mut results = vec![trial_of(&[54321, 54321, 1, 2])];
    for k in 1..10u16 {
        results.push(trial_of(&no_repeats(100 * k, 20)));
    }
    let a = assess(&results);
    assert_eq!(a.ranked, vec![(54321, 1)]);
    assert!(!a.any_triple_repeat);
    assert_eq!(a.verdict, Verdict::Low);
}

#[test]
fn scenario_c_six_trials_is_very_high() {
    let mut results = Vec::new();
    for k in 0..10u16 {
        if k < 6 {
            results.push(trial_of(&[40000, 40000, 100 * k]));
        } else {
            results.push(trial_of(&no_repeats(100 * k, 5)));
        }
    }
    let a = assess(&results);
    assert_eq!(a.ranked, vec![(40000, 6)]);
    assert_eq!(a.verdict, Verdict::VeryHigh(40000));
}

#[test]
fn scenario_d_four_trials_is_high() {
    let mut results = Vec::new();
    for k in 0..10u16 {
        if k < 4 {
            results.push(trial_of(&[33333, 33333, 500 + k, 500 + k]));
        } else {
            results.push(trial_of(&no_repeats(100 * k, 5)));
        }
    }
    let a = assess(&results);
    assert_eq!(a.ranked[0], (33333, 4));
    assert_eq!(a.verdict, Verdict::High(33333));
    assert_eq!(classify(&vec![(12, 4)], false), Verdict::High(12));
}

#[test]
fn scenario_e_two_trials_is_medium() {
    let mut results = Vec::new();
    for k in 0..10u16 {
        if k < 2 {
            results.push(trial_of(&[2000, 2000, 1]));
        } else {
            results.push(trial_of(&no_repeats(100 * k, 5)));
        }
    }
    let a = assess(&results);
    assert_eq!(a.ranked, vec![(2000, 2)]);
    assert!(!a.any_triple_repeat);
    assert_eq!(a.verdict, Verdict::Medium);
}

#[test]
fn scenario_f_empty_ranking_with_triple_repeat_is_medium() {
    assert_eq!(classify(&vec![], true), Verdict::Medium);
    assert_eq!(classify(&vec![], false), Verdict::Low);
}

#[test]
fn top_count_one_with_triple_repeat_is_medium() {
    let mut results = vec![trial_of(&[8, 8, 8, 1])];
    for k in 1..10u16 {
        results.push(trial_of(&no_repeats(100 * k, 5)));
    }
    let a = assess(&results);
    assert_eq!(a.ranked, vec![(8, 1)]);
    assert!(a.any_triple_repeat);
    assert_eq!(a.verdict, Verdict::Medium);
}

#[test]
fn classify_thresholds() {
    assert_eq!(classify(&vec![(7, 1)], false), Verdict::Low);
    assert_eq!(classify(&vec![(7, 3)], false), Verdict::Medium);
    assert_eq!(classify(&vec![(7, 5)], false), Verdict::High(7));
    assert_eq!(classify(&vec![(7, 6)], false), Verdict::VeryHigh(7));
    assert_eq!(classify(&vec![(7, 10), (8, 9)], true), Verdict::VeryHigh(7));
}
