//! Tests for the capacity-bounded knapsack collection.
//!
//! Quantities are fixed-point units; a test that means "0.5" at two decimal
//! places writes 50.

use knapsack_problem::{AppError, Clock, Knapsack};

#[test]
fn empty_knapsack_should_contain_no_clocks() {
    let empty_knapsack = Knapsack::empty(500);
    assert!(empty_knapsack.get_contents().is_empty());
    assert!(empty_knapsack.is_empty());
    assert!(!empty_knapsack.non_empty());
}

#[test]
fn filled_knapsack_should_contain_all_clocks_passed_at_construction() {
    let clocks = vec![Clock::new(50, 1999), Clock::new(75, 2999), Clock::new(90, 3999)];

    let filled_knapsack = Knapsack::from_clocks(&clocks, 500).expect("all clocks fit");
    assert_eq!(&clocks[..], filled_knapsack.get_contents());
}

#[test]
fn one_should_be_able_to_add_clocks_to_contents_of_knapsack() {
    let clock = Clock::new(445, 229);
    let updated_knapsack = Knapsack::from_clocks(&[clock], 500).expect("the clock fits");

    let expected_contents = [clock];
    let actual_contents = updated_knapsack.get_contents();

    assert_eq!(&expected_contents[..], actual_contents);
}

#[test]
fn try_add_clock_appends_and_adds_price() {
    let base = Knapsack::from_clocks(&[Clock::new(2, 5)], 10).expect("fits");
    let added = base.try_add_clock(Clock::new(3, 7)).expect("fits");
    assert_eq!(added.get_contents(), &[Clock::new(2, 5), Clock::new(3, 7)][..]);
    assert_eq!(added.get_value(), 12);
    // the receiving knapsack is unchanged
    assert_eq!(base.get_contents(), &[Clock::new(2, 5)][..]);
    assert_eq!(base.get_value(), 5);
}

#[test]
fn try_add_clock_fails_when_capacity_would_be_exceeded() {
    let base = Knapsack::from_clocks(&[Clock::new(6, 1)], 10).expect("fits");
    let rejected = base.try_add_clock(Clock::new(5, 1));
    assert!(matches!(rejected, Err(AppError::KnapsackFullError)));
    // the receiving knapsack is unchanged
    assert_eq!(base.get_contents(), &[Clock::new(6, 1)][..]);
}

#[test]
fn from_clocks_fails_atomically_when_a_prefix_fails() {
    let clocks = [Clock::new(6, 1), Clock::new(6, 1)];
    let rejected = Knapsack::from_clocks(&clocks, 10);
    assert!(matches!(rejected, Err(AppError::KnapsackFullError)));
}

#[test]
fn get_value_sums_all_prices() {
    let clocks = [Clock::new(1, 100), Clock::new(2, 250), Clock::new(3, 49)];
    let filled = Knapsack::from_clocks(&clocks, 10).expect("all clocks fit");
    assert_eq!(filled.get_value(), 399);
    assert_eq!(Knapsack::empty(10).get_value(), 0);
}

#[test]
fn weight_invariant_holds_for_built_knapsacks() {
    let clocks = vec![Clock::new(50, 1), Clock::new(75, 1), Clock::new(90, 1)];
    let filled = Knapsack::from_clocks(&clocks, 500).expect("all clocks fit");
    let total: u64 = filled.get_contents().iter().map(|c| c.weight).sum();
    assert!(total <= 500);

    let extended = filled.try_add_clock(Clock::new(285, 1)).expect("exactly fills the capacity");
    let total_after: u64 = extended.get_contents().iter().map(|c| c.weight).sum();
    assert_eq!(total_after, 500);
    assert!(extended.try_add_clock(Clock::new(1, 1)).is_err());
}

#[test]
fn empty_knapsack_accepts_zero_and_negative_capacity() {
    assert!(Knapsack::empty(0).is_empty());
    let negative = Knapsack::empty(-3);
    assert!(negative.is_empty());
    assert_eq!(negative.get_value(), 0);
}

#[test]
fn zero_weight_clock_fits_zero_capacity_but_not_negative() {
    let at_zero = Knapsack::empty(0).try_add_clock(Clock::new(0, 9)).expect("zero weight fits");
    assert!(at_zero.non_empty());
    assert_eq!(at_zero.get_value(), 9);

    assert!(Knapsack::empty(-1).try_add_clock(Clock::new(0, 9)).is_err());
}
