//! Tests for the enumeration of feasible contiguous runs and for the
//! selection of the best knapsack.

use std::cmp::Ordering;

use knapsack_problem::problem::{Problem, SolutionIter};
use knapsack_problem::{Clock, Knapsack};

fn contents(k: &Knapsack) -> Vec<Clock> {
    k.get_contents().to_vec()
}

fn all_contents(problem: &Problem) -> Vec<Vec<Clock>> {
    problem.get_all_combinations().iter().map(contents).collect()
}

#[test]
fn empty_knapsack_for_zero_max_weight() {
    let problem = Problem::new(vec![], 0);
    assert!(problem.get_all_combinations().is_empty());
}

#[test]
fn empty_knapsack_for_positive_max_weight() {
    let problem = Problem::new(vec![], 100);
    assert!(problem.get_all_combinations().is_empty());
}

#[test]
fn empty_knapsack_for_negative_max_weight() {
    let problem = Problem::new(vec![], -5);
    assert!(problem.get_all_combinations().is_empty());
    assert!(problem.get_best_knapsack().is_none());
}

#[test]
fn best_knapsack_is_none_for_empty_input_and_zero_capacity() {
    let problem = Problem::new(vec![], 0);
    assert!(problem.get_best_knapsack().is_none());
}

#[test]
fn knapsack_with_single_clock_below_max_weight() {
    let clock = Clock::new(50, 200);
    let problem = Problem::new(vec![clock], 100);

    let result = problem.get_all_combinations();

    assert_eq!(result.len(), 1);
    assert_eq!(contents(&result[0]), vec![clock]);

    let best = problem.get_best_knapsack().expect("one feasible set exists");
    assert_eq!(contents(&best), vec![clock]);
}

#[test]
fn knapsack_with_single_clock_exceeds_max_weight() {
    let clock = Clock::new(150, 200);
    let problem = Problem::new(vec![clock], 100);

    assert!(problem.get_all_combinations().is_empty());
    assert!(problem.get_best_knapsack().is_none());
}

#[test]
fn knapsack_with_two_clocks_below_max_weight() {
    let clocks = vec![Clock::new(50, 200), Clock::new(40, 100)];
    let problem = Problem::new(clocks.clone(), 100);

    let result = all_contents(&problem);

    let expected = vec![
        vec![clocks[0]],
        vec![clocks[1]],
        vec![clocks[0], clocks[1]],
    ];
    assert_eq!(result, expected);

    let best = problem.get_best_knapsack().expect("feasible sets exist");
    assert_eq!(contents(&best), vec![clocks[0], clocks[1]]);
    assert_eq!(best.get_value(), 300);
}

#[test]
fn knapsack_with_three_clocks_two_solutions() {
    let three_clocks = vec![Clock::new(50, 60), Clock::new(40, 40), Clock::new(60, 70)];
    let problem = Problem::new(three_clocks.clone(), 100);

    let result = all_contents(&problem);

    let expected: Vec<Vec<Clock>> = vec![
        vec![three_clocks[0]],
        vec![three_clocks[1]],
        vec![three_clocks[2]],
        vec![three_clocks[0], three_clocks[1]],
        vec![three_clocks[1], three_clocks[2]],
    ];
    for combination in &expected {
        assert!(result.contains(combination), "missing {:?}", combination);
    }
    // non-contiguous runs and infeasible runs are never yielded
    assert!(!result.contains(&vec![three_clocks[0], three_clocks[2]]));
    assert!(!result.contains(&vec![three_clocks[0], three_clocks[1], three_clocks[2]]));
}

#[test]
fn get_best_knapsack_for_two_solutions() {
    let three_clocks = vec![Clock::new(50, 60), Clock::new(40, 40), Clock::new(60, 70)];
    let expected_best_solution = vec![three_clocks[1], three_clocks[2]];
    let problem = Problem::new(three_clocks, 100);

    let best = problem.get_best_knapsack().expect("Expected a solution, but got None");
    assert_eq!(contents(&best), expected_best_solution);
    assert_eq!(best.get_value(), 110);
}

#[test]
fn get_best_knapsack_with_multiple_solutions() {
    let clocks = vec![
        Clock::new(20, 50),
        Clock::new(30, 80),
        Clock::new(50, 120),
        Clock::new(10, 30),
    ];
    let expected_best_solution = vec![clocks[0], clocks[1], clocks[2]];
    let problem = Problem::new(clocks, 100);

    let best = problem.get_best_knapsack().expect("Expected a solution, but got None");
    assert_eq!(contents(&best), expected_best_solution);
}

#[test]
fn value_tie_is_won_by_the_last_yielded_knapsack() {
    // no two clocks fit together, so the traversal yields the singleton at
    // index 0 and then the singleton found in the tail at index 2; both have
    // equal value and the one yielded last wins
    let clocks = vec![Clock::new(8, 10), Clock::new(9, 10), Clock::new(9, 10)];
    let problem = Problem::new(clocks.clone(), 9);

    let result = all_contents(&problem);
    assert_eq!(result, vec![vec![clocks[0]], vec![clocks[2]]]);

    let best = problem.get_best_knapsack().expect("feasible sets exist");
    assert_eq!(contents(&best), vec![Clock::new(9, 10)]);
}

#[test]
fn fresh_run_after_a_failed_extension_starts_only_in_the_tail() {
    // the second clock alone would fit, but a fresh run may only start at a
    // clock strictly after the failed head, and there is none here
    let clocks = vec![Clock::new(6, 10), Clock::new(5, 20)];
    let problem = Problem::new(clocks.clone(), 10);

    let result = all_contents(&problem);
    assert_eq!(result, vec![vec![clocks[0]]]);
}

#[test]
fn exhausted_iterator_keeps_yielding_nothing() {
    let problem = Problem::new(vec![Clock::new(5, 20), Clock::new(4, 10)], 10);
    let mut iter = problem.iter();

    let mut yielded: usize = 0;
    while iter.next().is_some() {
        yielded += 1;
    }
    assert_eq!(yielded, 3);
    // re-draining an exhausted iterator yields nothing further
    assert!(iter.next().is_none());
    assert!(iter.next().is_none());
}

#[test]
fn find_valid_clock_index_skips_overweight_clocks() {
    let clocks = vec![Clock::new(90, 1), Clock::new(70, 1), Clock::new(30, 1)];
    assert_eq!(SolutionIter::find_valid_clock_index(&clocks, 0, 50), Some(2));
    assert_eq!(SolutionIter::find_valid_clock_index(&clocks, 0, 20), None);
    assert_eq!(SolutionIter::find_valid_clock_index(&clocks, 0, 100), Some(0));
    assert_eq!(SolutionIter::find_valid_clock_index(&clocks, 1, 100), Some(1));
}

#[test]
fn cmp_orders_knapsacks_by_value() {
    let cheap = Knapsack::from_clocks(&[Clock::new(1, 10)], 10).expect("fits");
    let dear = Knapsack::from_clocks(&[Clock::new(1, 20)], 10).expect("fits");
    let dear_too = Knapsack::from_clocks(&[Clock::new(2, 20)], 10).expect("fits");
    assert_eq!(Problem::cmp(&cheap, &dear), Ordering::Less);
    assert_eq!(Problem::cmp(&dear, &cheap), Ordering::Greater);
    assert_eq!(Problem::cmp(&dear, &dear_too), Ordering::Equal);
}
