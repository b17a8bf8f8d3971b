use statfeed::{Cost, Statfeed, StatfeedError, SCALE};

const UNIT: i64 = SCALE;

fn level(options: usize, size: usize) -> Statfeed<usize> {
    let randoms = vec![vec![0i64; options]; size];
    Statfeed::with_randoms((0..options).collect(), size, randoms).unwrap()
}

fn next(state: &mut u64) -> i64 {
    *state = state
        .wrapping_mul(6364136223846793005)
        .wrapping_add(1442695040888963407);
    ((*state >> 11) % (SCALE as u64)) as i64
}

#[test]
fn choices_follow_the_weights() {
    let mut sf = level(3, 8);
    let u = UNIT as u64;
    sf.set_weights(vec![vec![2 * u, u, u]; 8]).unwrap();
    sf.populate_choices().unwrap();
    assert_eq!(sf.choice_indices(), &vec![0usize, 0, 1, 2, 0, 0, 1, 2]);
    assert_eq!(sf.statistics(), &vec![0i128, 0, 0]);
}

#[test]
fn frequencies_are_proportional_to_weights() {
    let size = 600;
    let mut state = 7u64;
    let randoms: Vec<Vec<i64>> = (0..size)
        .map(|_| (0..3).map(|_| next(&mut state)).collect())
        .collect();
    let mut sf = Statfeed::with_randoms(vec!['x', 'y', 'z'], size, randoms).unwrap();
    let u = UNIT as u64;
    sf.set_weights(vec![vec![3 * u, 2 * u, u]; size]).unwrap();
    sf.populate_choices().unwrap();
    let picks = sf.choice_indices();
    let count = |o: usize| picks.iter().filter(|&&p| p == o).count();
    assert_eq!([count(0), count(1), count(2)], [300, 200, 100]);
    assert_eq!(&picks[..12], &[0, 1, 0, 0, 1, 2, 0, 1, 0, 1, 0, 2]);
    assert_eq!(sf.statistics(), &vec![300i128, 400, 400]);
}

#[test]
fn spread_of_statistics_stays_bounded() {
    let size = 2000;
    let mut state = 99u64;
    let randoms: Vec<Vec<i64>> = (0..size)
        .map(|_| (0..4).map(|_| next(&mut state)).collect())
        .collect();
    let mut sf = Statfeed::with_randoms(vec![0u8, 1, 2, 3], size, randoms).unwrap();
    let u = UNIT as u64;
    sf.set_weights(vec![vec![4 * u, 3 * u, 2 * u, u]; size]).unwrap();
    // accents of one, heterogeneities of a tenth, weights of at least one
    let bound = (UNIT as i128 + UNIT as i128 / 10) + UNIT as i128;
    for _ in 0..5 {
        sf.populate_choices().unwrap();
        let stats = sf.statistics();
        let spread = stats.iter().max().unwrap() - stats.iter().min().unwrap();
        assert!(spread <= bound);
    }
}

#[test]
fn zero_weight_is_never_chosen() {
    let mut sf = level(3, 4);
    let u = UNIT as u64;
    sf.set_weights(vec![vec![0, u, u]; 4]).unwrap();
    assert_eq!(sf.scheduling_values(0)[0], Cost::Infinite);
    assert_eq!(sf.true_increment(0, 0), Cost::Infinite);
    assert_eq!(sf.expected_increment(0, 0), Cost::Infinite);
    sf.populate_choices().unwrap();
    assert_eq!(sf.choice_indices(), &vec![1usize, 2, 1, 2]);
    // the option that took no part keeps its statistic
    assert_eq!(sf.statistics(), &vec![0i128, 0, 0]);
}

#[test]
fn zero_weight_keeps_its_statistic() {
    let mut sf = level(3, 1);
    let u = UNIT as u64;
    sf.set_weights(vec![vec![0, u, 3 * u]]).unwrap();
    sf.populate_choices().unwrap();
    assert_eq!(sf.choice_indices(), &vec![2usize]);
    // the pick pays 1/3 and both options of positive weight are relieved of 1/4
    assert_eq!(
        sf.statistics(),
        &vec![0i128, -250_000_000_000, 333_333_333_333 - 250_000_000_000]
    );
}

#[test]
fn no_option_of_positive_weight_fails_the_run() {
    let mut sf = level(2, 2);
    let u = UNIT as u64;
    sf.set_weights(vec![vec![u, u], vec![0, 0]]).unwrap();
    assert_eq!(sf.populate_choices(), Err(StatfeedError::NoAcceptableOption));
    assert_eq!(sf.choice_indices(), &Vec::<usize>::new());
    assert_eq!(sf.statistics(), &vec![0i128, 0]);
}

#[test]
fn no_acceptable_option_fails_the_run() {
    let mut sf = level(2, 2);
    sf.set_acceptable(vec![vec![true, true], vec![false, false]])
        .unwrap();
    assert_eq!(sf.populate_choices(), Err(StatfeedError::NoAcceptableOption));
    assert!(sf.choices().is_empty());
    assert_eq!(sf.statistics(), &vec![0i128, 0]);
}

#[test]
fn only_acceptable_option_of_zero_weight_fails_the_run() {
    let mut sf = level(2, 1);
    let u = UNIT as u64;
    sf.set_weights(vec![vec![0, u]]).unwrap();
    sf.set_acceptable(vec![vec![true, false]]).unwrap();
    assert_eq!(sf.populate_choices(), Err(StatfeedError::NoAcceptableOption));
}

#[test]
fn unacceptable_options_are_passed_over() {
    let mut sf = Statfeed::with_randoms(
        vec!['a', 'b', 'c'],
        3,
        vec![
            vec![100_000_000_000, 200_000_000_000, 300_000_000_000],
            vec![400_000_000_000, 500_000_000_000, 600_000_000_000],
            vec![700_000_000_000, 800_000_000_000, 900_000_000_000],
        ],
    )
    .unwrap();
    sf.set_acceptable(vec![
        vec![false, true, true],
        vec![true, false, true],
        vec![true, true, false],
    ])
    .unwrap();
    assert!(!sf.is_acceptable(0, 0));
    assert!(sf.is_acceptable(0, 1));
    sf.populate_choices().unwrap();
    assert_eq!(sf.choices(), vec![&'b', &'a', &'a']);
    assert_eq!(
        sf.statistics(),
        &vec![3_000_000_000_003i128, 0, -3_000_000_000_003]
    );
}

#[test]
fn equal_values_go_to_the_first_option() {
    let mut sf = level(4, 1);
    sf.populate_choices().unwrap();
    assert_eq!(sf.choice_indices(), &vec![0usize]);
}

#[test]
fn run_of_no_decisions_changes_nothing() {
    let mut sf = level(3, 0);
    assert_eq!(sf.size(), 0);
    assert_eq!(sf.populate_choices(), Ok(()));
    assert!(sf.choices().is_empty());
    assert_eq!(sf.statistics(), &vec![0i128, 0, 0]);
}

#[test]
fn choices_have_one_entry_per_decision() {
    for size in [1usize, 2, 5, 17] {
        let mut sf = level(3, size);
        sf.populate_choices().unwrap();
        assert_eq!(sf.choices().len(), size);
        assert_eq!(sf.choice_indices().len(), size);
    }
}

#[test]
fn equal_selectors_choose_alike() {
    let size = 50;
    let mut state = 3u64;
    let randoms: Vec<Vec<i64>> = (0..size)
        .map(|_| (0..5).map(|_| next(&mut state)).collect())
        .collect();
    let mut a = Statfeed::with_randoms(vec![1, 2, 3, 4, 5], size, randoms.clone()).unwrap();
    let mut b = Statfeed::with_randoms(vec![1, 2, 3, 4, 5], size, randoms).unwrap();
    a.populate_choices().unwrap();
    b.populate_choices().unwrap();
    assert_eq!(a.choice_indices(), b.choice_indices());
    assert_eq!(a.statistics(), b.statistics());
    assert_eq!(a.choices(), b.choices());
}

#[test]
fn a_second_run_starts_from_the_statistics_of_the_first() {
    let mut sf = level(2, 1);
    sf.populate_choices().unwrap();
    assert_eq!(sf.choice_indices(), &vec![0usize]);
    assert_eq!(
        sf.statistics(),
        &vec![1_000_000_000_000i128, -1_000_000_000_000]
    );
    sf.populate_choices().unwrap();
    assert_eq!(sf.choice_indices(), &vec![1usize]);
    assert_eq!(sf.statistics(), &vec![0i128, 0]);
}

#[test]
fn statistics_out_of_bounds_fail_the_run() {
    let size = 10_000;
    let mut sf = level(2, size);
    sf.set_weights(vec![vec![1, 1]; size]).unwrap();
    sf.set_accents(vec![i64::MAX; size]).unwrap();
    sf.set_heterogeneities(vec![0; size]).unwrap();
    sf.set_acceptable(vec![vec![true, false]; size]).unwrap();
    let step: i128 = 4_611_686_018_427_387_903_500_000_000_000;
    for run in 1..=216 {
        assert_eq!(sf.populate_choices(), Ok(()));
        assert_eq!(sf.statistics()[0], step * 10_000 * run);
    }
    let before = sf.statistics().clone();
    assert_eq!(sf.populate_choices(), Err(StatfeedError::StatisticsOverflow));
    assert_eq!(sf.statistics(), &before);
    assert_eq!(sf.choice_indices().len(), size);
}

#[test]
fn negative_accents_are_rounded_down() {
    let mut sf = Statfeed::with_randoms(vec!['p', 'q'], 3, vec![vec![5, 7]; 3]).unwrap();
    let u = UNIT as u64;
    sf.set_weights(vec![vec![u, u]; 3]).unwrap();
    sf.set_accents(vec![-UNIT; 3]).unwrap();
    sf.set_heterogeneities(vec![-3; 3]).unwrap();
    assert_eq!(sf.true_increment(0, 0), Cost::Finite(-1_000_000_000_000));
    assert_eq!(sf.expected_increment(0, 0), Cost::Finite(-1_000_000_000_001));
    assert_eq!(sf.expected_increment(0, 1), Cost::Finite(-1_000_000_000_001));
    sf.populate_choices().unwrap();
    assert_eq!(sf.choice_indices(), &vec![0usize, 0, 0]);
    assert_eq!(
        sf.statistics(),
        &vec![-1_500_000_000_000i128, 1_500_000_000_000]
    );
}

#[test]
fn heavier_weight_lowers_the_value() {
    let mut sf = level(2, 1);
    let u = UNIT as u64;
    sf.set_weights(vec![vec![2 * u, u]]).unwrap();
    let light = sf.scheduling_values(0);
    sf.set_weights(vec![vec![4 * u, u]]).unwrap();
    let heavy = sf.scheduling_values(0);
    assert_eq!(light[0], Cost::Finite(500_000_000_000));
    assert_eq!(heavy[0], Cost::Finite(250_000_000_000));
    assert_eq!(light[1], heavy[1]);
}

#[test]
fn weights_one_unit_apart_can_share_a_value() {
    let mut sf = level(2, 1);
    let u = UNIT as u64;
    sf.set_weights(vec![vec![3 * u, 3 * u + 1]]).unwrap();
    let values = sf.scheduling_values(0);
    assert_eq!(values[0], Cost::Finite(333_333_333_333));
    assert_eq!(values[1], Cost::Finite(333_333_333_333));
}
