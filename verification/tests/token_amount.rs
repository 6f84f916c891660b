use lakeside::token_amount::{
    checked_sum_total, compute_sum_total, compute_token_value, compute_token_values, AmountArgs,
    AmountError, AmountStrategy, DEFAULT_LOWER_BOUND, DEFAULT_UPPER_BOUND,
};

#[test]
fn test_fixed_amount() {
    let strategy = AmountStrategy::Fixed(5000);
    assert_eq!(compute_token_value(strategy), 5000);
}

#[test]
fn test_variable_amount() {
    let strategy = AmountStrategy::Range {
        lower: 100,
        upper: 1000,
    };
    let result = compute_token_value(strategy);
    assert!(result >= 100 && result <= 1000);
}

#[test]
fn test_compute_sum() {
    let values = vec![21, 13, 14, 15, 16, 121];
    let sum = compute_sum_total(&values);
    assert_eq!(sum, 200);
}

#[test]
fn degenerate_range_gives_its_bound() {
    let strategy = AmountStrategy::Range { lower: 42, upper: 42 };
    assert_eq!(compute_token_value(strategy), 42);
}

#[test]
fn token_values_have_count_and_respect_strategy() {
    let fixed = compute_token_values(AmountStrategy::Fixed(21), 5);
    assert_eq!(fixed, vec![21, 21, 21, 21, 21]);
    let ranged = compute_token_values(AmountStrategy::Range { lower: 10, upper: 20 }, 50);
    assert_eq!(ranged.len(), 50);
    assert!(ranged.iter().all(|v| (10..=20).contains(v)));
    assert!(compute_token_values(AmountStrategy::Fixed(1), 0).is_empty());
}

#[test]
fn checked_sum_detects_overflow() {
    assert_eq!(checked_sum_total(&vec![1, 2, 3]), Some(6));
    assert_eq!(checked_sum_total(&vec![]), Some(0));
    assert_eq!(checked_sum_total(&vec![u64::MAX, 1]), None);
    assert_eq!(checked_sum_total(&vec![u64::MAX - 1, 1]), Some(u64::MAX));
}

fn args(f: Option<u64>, l: Option<u64>, u: Option<u64>) -> AmountArgs {
    AmountArgs {
        fixed_amount: f,
        lower_bound: l,
        upper_bound: u,
    }
}

#[test]
fn resolve_accepts_valid_flags() {
    assert_eq!(args(Some(1212), None, None).resolve(), Ok(AmountStrategy::Fixed(1212)));
    assert_eq!(
        args(None, Some(1000), Some(4000)).resolve(),
        Ok(AmountStrategy::Range { lower: 1000, upper: 4000 })
    );
    assert_eq!(
        args(None, Some(7), Some(7)).resolve(),
        Ok(AmountStrategy::Range { lower: 7, upper: 7 })
    );
    assert_eq!(
        args(None, None, None).resolve(),
        Ok(AmountStrategy::Range {
            lower: DEFAULT_LOWER_BOUND,
            upper: DEFAULT_UPPER_BOUND
        })
    );
    assert_eq!(DEFAULT_LOWER_BOUND, 10);
    assert_eq!(DEFAULT_UPPER_BOUND, 20);
}

#[test]
fn resolve_refuses_each_bad_combination() {
    assert_eq!(args(Some(0), None, None).resolve(), Err(AmountError::FixedAmountZero));
    assert_eq!(args(Some(5), Some(1), None).resolve(), Err(AmountError::FixedWithBounds));
    assert_eq!(args(Some(5), None, Some(9)).resolve(), Err(AmountError::FixedWithBounds));
    assert_eq!(args(Some(0), Some(1), Some(2)).resolve(), Err(AmountError::FixedWithBounds));
    assert_eq!(args(None, Some(0), Some(5)).resolve(), Err(AmountError::ZeroBound));
    assert_eq!(args(None, Some(5), Some(0)).resolve(), Err(AmountError::ZeroBound));
    assert_eq!(args(None, Some(9), Some(5)).resolve(), Err(AmountError::UpperBelowLower));
    assert_eq!(args(None, Some(9), None).resolve(), Err(AmountError::MissingBound));
    assert_eq!(args(None, None, Some(9)).resolve(), Err(AmountError::MissingBound));
    assert_eq!(
        AmountError::UpperBelowLower.message(),
        "--upper-bound must be greater than or equal to --lower-bound"
    );
}

#[test]
fn resolved_strategies_pay_positive_amounts() {
    for (f, l, u) in [
        (Some(3), None, None),
        (None, Some(1), Some(2)),
        (None, None, None),
    ] {
        let strategy = args(f, l, u).resolve().unwrap();
        for v in compute_token_values(strategy, 20) {
            assert!(v > 0);
        }
    }
}

#[test]
fn sum_of_joined_lists_is_sum_of_parts_in_any_order() {
    let a: Vec<u64> = vec![5, 17, 0, 42];
    let b: Vec<u64> = vec![8, 1];
    let mut joined = a.clone();
    joined.extend_from_slice(&b);
    assert_eq!(compute_sum_total(&joined), compute_sum_total(&a) + compute_sum_total(&b));
    assert_eq!(compute_sum_total(&joined), 73);
    let reordered: Vec<u64> = vec![42, 0, 5, 17];
    assert_eq!(compute_sum_total(&reordered), compute_sum_total(&a));
}
