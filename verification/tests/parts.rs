use statfeed::fixed::{div_floor, perturbed, scaled};
use statfeed::grid::{filled, filled_rows, has_shape};
use statfeed::order::{order_range, stable_order};
use statfeed::selector::{fits, row_total};
use statfeed::source::{random_row, random_rows};
use statfeed::{Cost, Statfeed, StatfeedError, SCALE};

#[test]
fn quotients_are_rounded_down() {
    assert_eq!(div_floor(7, 2), 3);
    assert_eq!(div_floor(-7, 2), -4);
    assert_eq!(div_floor(-8, 2), -4);
    assert_eq!(div_floor(-1, 3), -1);
    assert_eq!(div_floor(0, 5), 0);
    assert_eq!(div_floor(5, 7), 0);
    assert_eq!(div_floor(-5, u128::MAX), -1);
    assert_eq!(div_floor(i128::MAX, 1), i128::MAX);
    assert_eq!(div_floor(i128::MIN + 1, 1), i128::MIN + 1);
}

#[test]
fn numerators_carry_the_scale_twice() {
    assert_eq!(scaled(1), 1_000_000_000_000);
    assert_eq!(scaled(-3), -3_000_000_000_000);
    assert_eq!(
        scaled(i64::MIN),
        -9_223_372_036_854_775_808_000_000_000_000
    );
    assert_eq!(perturbed(2, 3, 5), 2_000_000_000_015);
    assert_eq!(perturbed(0, -3, 5), -15);
    assert_eq!(
        perturbed(i64::MIN, i64::MIN, i64::MIN),
        85_070_591_730_234_615_865_843_651_857_942_052_864
            - 9_223_372_036_854_775_808_000_000_000_000
    );
}

#[test]
fn order_is_ascending_and_stable() {
    let costs = [
        Cost::Finite(5),
        Cost::Infinite,
        Cost::Finite(-2),
        Cost::Finite(5),
        Cost::Infinite,
        Cost::Finite(-2),
        Cost::Finite(0),
    ];
    assert_eq!(stable_order(&costs), vec![2, 5, 6, 0, 3, 1, 4]);
    assert_eq!(order_range(&costs, 1, 5), vec![2, 3, 1, 4]);
    assert_eq!(order_range(&costs, 3, 3), Vec::<usize>::new());
    assert_eq!(stable_order(&[]), Vec::<usize>::new());
    assert_eq!(stable_order(&[Cost::Infinite]), vec![0]);
}

#[test]
fn order_of_many_costs_is_sorted() {
    let mut state = 12345u64;
    let costs: Vec<Cost> = (0..1000)
        .map(|_| {
            state = state
                .wrapping_mul(6364136223846793005)
                .wrapping_add(1442695040888963407);
            Cost::Finite(((state >> 40) % 50) as i128)
        })
        .collect();
    let order = stable_order(&costs);
    let mut expected: Vec<usize> = (0..1000).collect();
    expected.sort_by_key(|&i| match costs[i] {
        Cost::Finite(v) => v,
        Cost::Infinite => i128::MAX,
    });
    assert_eq!(order, expected);
}

#[test]
fn finite_costs_come_before_infinite() {
    assert!(Cost::Finite(i128::MAX).is_before(&Cost::Infinite));
    assert!(!Cost::Infinite.is_before(&Cost::Finite(i128::MAX)));
    assert!(!Cost::Infinite.is_before(&Cost::Infinite));
    assert!(Cost::Finite(-1).is_before(&Cost::Finite(0)));
    assert!(!Cost::Finite(4).is_before(&Cost::Finite(4)));
}

#[test]
fn sort_options_leaves_out_what_has_no_counterpart() {
    let sf = Statfeed::with_randoms(vec!['a', 'b', 'c'], 0, vec![]).unwrap();
    let short = sf.sort_options(&[Cost::Finite(2), Cost::Finite(1)]);
    assert_eq!(short, vec![&'b', &'a']);
    let long = sf.sort_options(&[
        Cost::Finite(2),
        Cost::Finite(1),
        Cost::Finite(3),
        Cost::Finite(0),
    ]);
    assert_eq!(long, vec![&'b', &'a', &'c']);
    let none = sf.sort_options(&[]);
    assert!(none.is_empty());
}

#[test]
fn sort_options_puts_infinite_costs_last_and_keeps_ties() {
    let sf = Statfeed::with_randoms(vec!["w", "x", "y", "z"], 0, vec![]).unwrap();
    let sorted = sf.sort_options(&[
        Cost::Infinite,
        Cost::Finite(1),
        Cost::Infinite,
        Cost::Finite(1),
    ]);
    assert_eq!(sorted, vec![&"x", &"z", &"w", &"y"]);
}

#[test]
fn totals_and_bounds() {
    assert_eq!(row_total(&vec![]), 0);
    assert_eq!(row_total(&vec![1, 2, 3]), 6);
    assert_eq!(
        row_total(&vec![u64::MAX, u64::MAX, 1]),
        2 * (u64::MAX as u128) + 1
    );
    let limit: i128 = 10_000_000_000_000_000_000_000_000_000_000_000_000;
    assert!(fits(&vec![]));
    assert!(fits(&vec![limit, -limit, 0]));
    assert!(!fits(&vec![0, limit + 1]));
    assert!(!fits(&vec![-limit - 1, 0]));
}

#[test]
fn shapes_are_checked_row_by_row() {
    assert!(has_shape(&vec![vec![1, 2], vec![3, 4]], 2, 2));
    assert!(!has_shape(&vec![vec![1, 2], vec![3]], 2, 2));
    assert!(!has_shape(&vec![vec![1, 2]], 2, 2));
    assert!(has_shape(&Vec::<Vec<u8>>::new(), 0, 3));
    assert_eq!(filled(7u8, 3), vec![7, 7, 7]);
    assert_eq!(filled_rows(true, 2, 2), vec![vec![true, true]; 2]);
    assert_eq!(filled_rows(1u64, 0, 2), Vec::<Vec<u64>>::new());
}

#[test]
fn drawn_perturbations_lie_from_zero_up_to_one() {
    let row = random_row(500);
    assert_eq!(row.len(), 500);
    assert!(row.iter().all(|&r| 0 <= r && r < SCALE));
    assert!(row.iter().any(|&r| r != row[0]));
    let rows = random_rows(4, 3);
    assert_eq!(rows.len(), 4);
    assert!(rows.iter().all(|row| row.len() == 3));
}

#[test]
fn new_selector_has_the_defaults() {
    let sf = Statfeed::new(vec!['a', 'b', 'c', 'd'], 2).unwrap();
    assert_eq!(sf.size(), 2);
    assert_eq!(sf.options(), &vec!['a', 'b', 'c', 'd']);
    assert_eq!(sf.weights(), &vec![vec![250_000_000_000u64; 4]; 2]);
    assert_eq!(sf.heterogeneities(), &vec![100_000_000_000i64; 2]);
    assert_eq!(sf.accents(), &vec![1_000_000_000_000i64; 2]);
    assert_eq!(sf.acceptable(), &vec![vec![true; 4]; 2]);
    assert_eq!(sf.statistics(), &vec![0i128; 4]);
    assert!(sf.choices().is_empty());
    assert_eq!(sf.randoms().len(), 2);
    for row in sf.randoms() {
        assert_eq!(row.len(), 4);
        assert!(row.iter().all(|&r| 0 <= r && r < SCALE));
    }
}

#[test]
fn no_options_are_refused() {
    assert!(matches!(
        Statfeed::<char>::new(vec![], 3),
        Err(StatfeedError::InvalidConfiguration)
    ));
    assert!(matches!(
        Statfeed::<char>::with_randoms(vec![], 0, vec![]),
        Err(StatfeedError::InvalidConfiguration)
    ));
}

#[test]
fn perturbations_of_the_wrong_shape_are_refused() {
    assert!(matches!(
        Statfeed::with_randoms(vec![1, 2], 2, vec![vec![0, 0]]),
        Err(StatfeedError::InvalidConfiguration)
    ));
    assert!(matches!(
        Statfeed::with_randoms(vec![1, 2], 1, vec![vec![0, 0, 0]]),
        Err(StatfeedError::InvalidConfiguration)
    ));
    assert!(Statfeed::with_randoms(vec![1, 2], 1, vec![vec![-5, 9]]).is_ok());
}

#[test]
fn setters_refuse_the_wrong_shape_and_change_nothing() {
    let mut sf = Statfeed::with_randoms(vec![1, 2], 2, vec![vec![1, 2], vec![3, 4]]).unwrap();
    let wrong = Err(StatfeedError::InvalidConfiguration);
    assert_eq!(sf.set_weights(vec![vec![1, 1]]), wrong);
    assert_eq!(sf.set_weights(vec![vec![1, 1], vec![1]]), wrong);
    assert_eq!(sf.set_randoms(vec![vec![1, 1, 1], vec![1, 1, 1]]), wrong);
    assert_eq!(sf.set_acceptable(vec![]), wrong);
    assert_eq!(sf.set_heterogeneities(vec![1]), wrong);
    assert_eq!(sf.set_accents(vec![1, 2, 3]), wrong);
    assert_eq!(sf.weights(), &vec![vec![500_000_000_000u64; 2]; 2]);
    assert_eq!(sf.randoms(), &vec![vec![1i64, 2], vec![3, 4]]);
    assert_eq!(sf.acceptable(), &vec![vec![true; 2]; 2]);
    assert_eq!(sf.heterogeneities(), &vec![100_000_000_000i64; 2]);
    assert_eq!(sf.accents(), &vec![1_000_000_000_000i64; 2]);
}

#[test]
fn setters_replace_what_they_name() {
    let mut sf = Statfeed::with_randoms(vec![1, 2], 2, vec![vec![1, 2], vec![3, 4]]).unwrap();
    assert_eq!(sf.set_weights(vec![vec![7, 8], vec![9, 0]]), Ok(()));
    assert_eq!(sf.set_randoms(vec![vec![-1, -2], vec![5, 6]]), Ok(()));
    assert_eq!(
        sf.set_acceptable(vec![vec![true, false], vec![false, true]]),
        Ok(())
    );
    assert_eq!(sf.set_heterogeneities(vec![11, 12]), Ok(()));
    assert_eq!(sf.set_accents(vec![-13, 14]), Ok(()));
    assert_eq!(sf.weights(), &vec![vec![7u64, 8], vec![9, 0]]);
    assert_eq!(sf.randoms(), &vec![vec![-1i64, -2], vec![5, 6]]);
    assert_eq!(sf.acceptable(), &vec![vec![true, false], vec![false, true]]);
    assert_eq!(sf.heterogeneities(), &vec![11i64, 12]);
    assert_eq!(sf.accents(), &vec![-13i64, 14]);
    assert_eq!(sf.options(), &vec![1, 2]);
    assert_eq!(sf.statistics(), &vec![0i128, 0]);
}
