use statfeed::{Cost, Statfeed};

fn fixed(x: f64) -> i64 {
    (x * 1.0e12).round() as i64
}

fn as_float(cost: Cost) -> f64 {
    match cost {
        Cost::Finite(units) => units as f64 / 1.0e12,
        Cost::Infinite => f64::INFINITY,
    }
}

fn setup() -> Statfeed<char> {
    let mut sf = Statfeed::new(vec!['a', 'b', 'c'], 3).unwrap();
    sf.set_randoms(vec![
        vec![fixed(0.1), fixed(0.2), fixed(0.3)],
        vec![fixed(0.4), fixed(0.5), fixed(0.6)],
        vec![fixed(0.7), fixed(0.8), fixed(0.9)],
    ])
    .unwrap();
    sf
}

fn assert_in_delta(left: f64, right: f64, delta: f64) {
    assert!((left - right).abs() < delta);
}

#[test]
fn test_true_increment() {
    let sf = setup();
    let res = as_float(sf.true_increment(0, 0));
    println!("true_increment: {}", &res);
    assert_in_delta(3.0, res, 1.0e-10);
}

#[test]
fn test_expected_increment() {
    let sf = setup();
    let res = as_float(sf.expected_increment(0, 0));
    println!("expected_increment: {}", &res);
    assert_in_delta(3.03, res, 1.0e-10);
}

#[test]
fn test_scheduling_values() {
    let actual = setup().scheduling_values(0);
    assert_eq!(3, actual.len());
    for (exp, res) in [3.03, 3.06, 3.09].iter().zip(actual.iter()) {
        println!("scheduling_values: {}", as_float(*res));
        assert_in_delta(*exp, as_float(*res), 1.0e-10);
    }
}

#[test]
fn test_sort_options() {
    let sf = setup();
    let actual = sf.sort_options(&[
        Cost::Finite(fixed(0.3) as i128),
        Cost::Finite(fixed(0.5) as i128),
        Cost::Finite(fixed(0.4) as i128),
    ]);
    println!("sort_options: {:?}", &actual);
    assert_eq!(3, actual.len());
    for (exp, res) in ['a', 'c', 'b'].iter().zip(actual.iter()) {
        assert_eq!(exp, *res);
    }
}

#[test]
fn test_populate_choices() {
    let mut sf = setup();
    sf.populate_choices().unwrap();
    let choices = sf.choices();
    println!("choices: {:?}", &choices);
    assert_eq!(3, choices.len());
    for (exp, res) in ['a', 'b', 'c'].iter().zip(choices.iter()) {
        assert_eq!(exp, *res);
    }
}

#[test]
fn scenario_values_are_exact_in_units() {
    let sf = setup();
    assert_eq!(sf.weights()[0], vec![333_333_333_333u64; 3]);
    assert_eq!(sf.true_increment(0, 0), Cost::Finite(3_000_000_000_003));
    assert_eq!(sf.expected_increment(0, 0), Cost::Finite(3_030_000_000_003));
    assert_eq!(
        sf.scheduling_values(0),
        vec![
            Cost::Finite(3_030_000_000_003),
            Cost::Finite(3_060_000_000_003),
            Cost::Finite(3_090_000_000_003),
        ]
    );
}

#[test]
fn scenario_statistics_return_to_level() {
    let mut sf = setup();
    sf.populate_choices().unwrap();
    assert_eq!(sf.choice_indices(), &vec![0usize, 1, 2]);
    assert_eq!(sf.statistics(), &vec![0i128, 0, 0]);
}
