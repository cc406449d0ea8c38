use grayscott_wasm::grid::{Grid, GridError};
use grayscott_wasm::cli::{
    check_counts, CountError, CountRules, Counts,
    parse_next, parse_u64, parse_u64_list, parse_usize, parse_usize_list, str_eq, ArgError,
    ArgList, BenchForwardArgs, IntErrorKind, ValueError,
};

fn strings(items: &[&str]) -> Vec<String> {
    items.iter().map(|s| s.to_string()).collect()
}

#[test]
fn parse_u64_matches_std() {
    let cases = [
        "", "+", "-", "0", "+0", "+5", "-5", "007", "12a", "a12", " 1", "1 ", "++1",
        "18446744073709551615", "18446744073709551616", "99999999999999999999x", "1x9999999999999999999999",
        "٣", "+é",
    ];
    for case in cases {
        let ours = parse_u64(case);
        let std = case.parse::<u64>();
        match (ours, std) {
            (Ok(a), Ok(b)) => assert_eq!(a, b, "{case:?}"),
            (Err(kind), Err(err)) => {
                let expected = match err.kind() {
                    std::num::IntErrorKind::Empty => IntErrorKind::Empty,
                    std::num::IntErrorKind::InvalidDigit => IntErrorKind::InvalidDigit,
                    std::num::IntErrorKind::PosOverflow => IntErrorKind::PosOverflow,
                    other => panic!("unexpected {other:?}"),
                };
                assert_eq!(kind, expected, "{case:?}");
            }
            (ours, std) => panic!("{case:?}: {ours:?} vs {std:?}"),
        }
    }
}

#[test]
fn parse_usize_values() {
    assert_eq!(parse_usize("64"), Ok(64));
    assert_eq!(parse_usize("+128"), Ok(128));
    assert_eq!(parse_usize(""), Err(IntErrorKind::Empty));
    assert_eq!(parse_usize("-1"), Err(IntErrorKind::InvalidDigit));
    assert_eq!(parse_usize("1.5"), Err(IntErrorKind::InvalidDigit));
    let too_big = format!("{}0", usize::MAX);
    assert_eq!(parse_usize(&too_big), Err(IntErrorKind::PosOverflow));
    assert_eq!(parse_usize(&usize::MAX.to_string()), Ok(usize::MAX));
}

#[test]
fn lists_split_on_every_comma() {
    assert_eq!(parse_usize_list("128,256,512"), Ok(vec![128, 256, 512]));
    assert_eq!(parse_usize_list("7"), Ok(vec![7]));
    assert_eq!(parse_usize_list(""), Err(IntErrorKind::Empty));
    assert_eq!(parse_usize_list("1,,2"), Err(IntErrorKind::Empty));
    assert_eq!(parse_usize_list("1,2,"), Err(IntErrorKind::Empty));
    assert_eq!(parse_usize_list("1,x,"), Err(IntErrorKind::InvalidDigit));
    assert_eq!(
        parse_u64_list("24301,24589,51966,48879"),
        Ok(vec![24301, 24589, 51966, 48879])
    );
    assert_eq!(
        parse_u64_list("1,18446744073709551616"),
        Err(IntErrorKind::PosOverflow)
    );
}

#[test]
fn lists_agree_with_split_and_parse() {
    for case in ["1,2,3", "0", ",", "5,a", "+3,4", "10,20,30,40,50", "9,,", "a,99999999999999999999"] {
        let expected: Result<Vec<u64>, _> = case.split(',').map(|p| p.parse::<u64>()).collect();
        match (parse_u64_list(case), expected) {
            (Ok(a), Ok(b)) => assert_eq!(a, b),
            (Err(_), Err(_)) => {}
            (a, b) => panic!("{case:?}: {a:?} vs {b:?}"),
        }
    }
}

#[test]
fn parse_next_reads_one_value() {
    let items = strings(&["--width", "64", "--steps", "abc"]);
    let mut values = ArgList::new(&items);
    assert_eq!(values.next().as_deref(), Some("--width"));
    assert_eq!(parse_next("--width", &mut values).unwrap(), 64);
    assert_eq!(values.next().as_deref(), Some("--steps"));
    match parse_next("--steps", &mut values) {
        Err(ValueError::Invalid { flag, raw, kind }) => {
            assert_eq!(flag, "--steps");
            assert_eq!(raw, "abc");
            assert_eq!(kind, IntErrorKind::InvalidDigit);
        }
        other => panic!("{other:?}"),
    }
    match parse_next("--radius", &mut values) {
        Err(ValueError::Missing { flag }) => assert_eq!(flag, "--radius"),
        other => panic!("{other:?}"),
    }
    assert!(values.next().is_none());
}

#[test]
fn str_eq_compares_characters() {
    assert!(str_eq("--grids", "--grids"));
    assert!(!str_eq("--grid", "--grids"));
    assert!(!str_eq("--gridS", "--grids"));
    assert!(str_eq("", ""));
}

#[test]
fn bench_forward_defaults() {
    let a = BenchForwardArgs::parse(&[]).unwrap();
    assert_eq!(a.grids, vec![128, 256, 512]);
    assert_eq!((a.steps, a.trials, a.warmup_steps, a.radius), (500, 5, 25, 5));
}

#[test]
fn bench_forward_overrides() {
    let args = strings(&[
        "--grids", "64,96", "--steps", "10", "--trials", "3", "--warmup-steps", "0", "--radius",
        "2", "--steps", "11",
    ]);
    let a = BenchForwardArgs::parse(&args).unwrap();
    assert_eq!(a.grids, vec![64, 96]);
    assert_eq!((a.steps, a.trials, a.warmup_steps, a.radius), (11, 3, 0, 2));
}

#[test]
fn bench_forward_errors() {
    assert_eq!(
        BenchForwardArgs::parse(&strings(&["--steps"])).unwrap_err(),
        ArgError::MissingValue { flag_at: 0 }
    );
    assert_eq!(
        BenchForwardArgs::parse(&strings(&["--steps", "1", "--bogus"])).unwrap_err(),
        ArgError::MissingValue { flag_at: 2 }
    );
    assert_eq!(
        BenchForwardArgs::parse(&strings(&["--bogus", "1"])).unwrap_err(),
        ArgError::UnknownArgument { flag_at: 0 }
    );
    assert_eq!(
        BenchForwardArgs::parse(&strings(&["--trials", "2", "--grids", "8,x"])).unwrap_err(),
        ArgError::InvalidValue { flag_at: 2, kind: IntErrorKind::InvalidDigit }
    );
    assert_eq!(
        BenchForwardArgs::parse(&strings(&["--grids", ""])).unwrap_err(),
        ArgError::InvalidValue { flag_at: 0, kind: IntErrorKind::Empty }
    );
    assert_eq!(
        BenchForwardArgs::parse(&strings(&["--steps", "0"])).unwrap_err(),
        ArgError::ZeroSteps
    );
    assert_eq!(
        BenchForwardArgs::parse(&strings(&["--trials", "0", "--steps", "0"])).unwrap_err(),
        ArgError::ZeroSteps
    );
    assert_eq!(
        BenchForwardArgs::parse(&strings(&["--trials", "0"])).unwrap_err(),
        ArgError::ZeroTrials
    );
}

#[test]
fn counts_report_the_first_broken_condition() {
    let all = CountRules {
        square: true,
        steps: true,
        trials: true,
        seeds: true,
        feed_count: true,
        kill_count: true,
    };
    let good = Counts { width: 8, height: 8, steps: 1, trials: 1, seeds: 1, feed_count: 3, kill_count: 3 };
    assert_eq!(check_counts(&good, &all), Ok(()));
    assert_eq!(check_counts(&Counts { width: 0, height: 0, ..good }, &all), Err(CountError::ZeroWidth));
    assert_eq!(check_counts(&Counts { height: 0, ..good }, &all), Err(CountError::ZeroHeight));
    assert_eq!(check_counts(&Counts { height: 9, steps: 0, ..good }, &all), Err(CountError::NotSquare));
    assert_eq!(check_counts(&Counts { steps: 0, trials: 0, ..good }, &all), Err(CountError::ZeroSteps));
    assert_eq!(check_counts(&Counts { trials: 0, ..good }, &all), Err(CountError::ZeroTrials));
    assert_eq!(check_counts(&Counts { seeds: 0, ..good }, &all), Err(CountError::NoSeeds));
    assert_eq!(check_counts(&Counts { feed_count: 0, kill_count: 0, ..good }, &all), Err(CountError::ZeroFeedCount));
    assert_eq!(check_counts(&Counts { kill_count: 0, ..good }, &all), Err(CountError::ZeroKillCount));
    let sides = CountRules { square: false, steps: false, trials: false, seeds: false, feed_count: false, kill_count: false };
    assert_eq!(check_counts(&Counts { height: 9, steps: 0, seeds: 0, ..good }, &sides), Ok(()));
}

#[test]
fn grid_checks_its_sides() {
    assert_eq!(Grid::checked(4, 3), Ok(Grid { width: 4, height: 3 }));
    assert_eq!(Grid::checked(4, 3).unwrap().len(), 12);
    assert_eq!(Grid::checked(0, 0), Err(GridError::ZeroWidth));
    assert_eq!(Grid::checked(2, 0), Err(GridError::ZeroHeight));
    assert_eq!(Grid::checked(usize::MAX, 2), Err(GridError::TooManyCells));
}
