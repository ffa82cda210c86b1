use injectivity::generator::{GeneratorError, Lehmer};
use injectivity::heap::MaxHeap;
use injectivity::merge::{count_duplicates, Tally};
use injectivity::partition::{partition, ConfigError, SubRange};
use injectivity::pipeline::{count_collisions, RunError};
use injectivity::producer::{extend, produce, Failure};

/// Generates every value of the domain in one go and counts equal
/// neighbours after sorting.
fn brute_force(domain_min: i64, domain_max: i64) -> Tally {
    let g = Lehmer::new();
    let mut values: Vec<u64> = (domain_min..domain_max).map(|v| g.generate(v).unwrap()).collect();
    values.sort();
    let mut duplicates: u64 = 0;
    for i in 1..values.len() {
        if values[i] == values[i - 1] {
            duplicates += 1;
        }
    }
    Tally { total: values.len() as u64, duplicates }
}

fn drain(mut stream: MaxHeap<u64>) -> Vec<u64> {
    let mut out = Vec::new();
    while let Some(x) = stream.pop() {
        out.push(x);
    }
    out
}

#[test]
fn produce_fills_one_value_per_domain_value() {
    let g = Lehmer::new();
    let stream = produce(&g, SubRange { lo: 1, hi: 4 }).ok().unwrap();
    assert_eq!(stream.len(), 3);
    // 16807 * 3, 16807 * 2 and 16807 over the modulus
    assert_eq!(drain(stream), vec![234_791, 156_527, 78_263]);
}

#[test]
fn produce_of_an_empty_range_is_empty() {
    let g = Lehmer::new();
    assert_eq!(produce(&g, SubRange { lo: 7, hi: 7 }).ok().unwrap().len(), 0);
    assert_eq!(produce(&g, SubRange { lo: 9, hi: 2 }).ok().unwrap().len(), 0);
}

#[test]
fn extend_adds_to_what_is_there() {
    let g = Lehmer::new();
    let mut stream: MaxHeap<u64> = MaxHeap::new();
    stream.push(5);
    assert_eq!(extend(&g, &mut stream, SubRange { lo: 1, hi: 3 }), Ok(()));
    assert_eq!(extend(&g, &mut stream, SubRange { lo: 3, hi: 4 }), Ok(()));
    assert_eq!(extend(&g, &mut stream, SubRange { lo: 4, hi: 4 }), Ok(()));
    assert_eq!(drain(stream), vec![234_791, 156_527, 78_263, 5]);
}

#[test]
fn extend_in_pieces_equals_produce_at_once() {
    let g = Lehmer::new();
    let mut pieces: MaxHeap<u64> = MaxHeap::new();
    for lo in (100..1000).step_by(100) {
        assert!(extend(&g, &mut pieces, SubRange { lo, hi: lo + 100 }).is_ok());
    }
    let whole = produce(&g, SubRange { lo: 100, hi: 1000 }).ok().unwrap();
    assert_eq!(drain(pieces), drain(whole));
}

#[test]
fn small_domain_matches_brute_force() {
    let expected = brute_force(1, 5000);
    assert_eq!(expected.total, 4999);
    assert_eq!(count_collisions(4, 1, 5000), Ok(expected));
}

#[test]
fn small_domain_has_no_collision() {
    assert_eq!(count_collisions(4, 1, 5000), Ok(Tally { total: 4999, duplicates: 0 }));
}

#[test]
fn worker_count_does_not_change_the_tally() {
    let expected = brute_force(1, 2000);
    for w in [1i64, 2, 3, 7, 10, 1999, 2500] {
        assert_eq!(count_collisions(w, 1, 2000), Ok(expected));
    }
}

#[test]
fn domain_around_the_modulus() {
    let tally = count_collisions(3, 2_147_483_640, 2_147_483_650).unwrap();
    assert_eq!(tally.total, 10);
    assert_eq!(tally, brute_force(2_147_483_640, 2_147_483_650));
}

#[test]
fn domain_around_zero() {
    let tally = count_collisions(2, -3, 4).unwrap();
    assert_eq!(tally, Tally { total: 7, duplicates: 0 });
    assert_eq!(tally, brute_force(-3, 4));
}

#[test]
fn steps_by_hand_match_the_whole_run() {
    let g = Lehmer::new();
    let ranges = partition(4, 1, 5000).unwrap();
    let mut streams = Vec::new();
    let mut sizes = Vec::new();
    for r in ranges {
        let stream = produce(&g, r).ok().unwrap();
        sizes.push(stream.len());
        streams.push(stream);
    }
    assert_eq!(sizes, vec![1249, 1250, 1250, 1250]);
    assert_eq!(Ok(count_duplicates(streams)), count_collisions(4, 1, 5000));
}

#[test]
fn run_rejects_missing_workers() {
    assert_eq!(count_collisions(0, 1, 100), Err(RunError::Config(ConfigError::NoWorkers)));
    assert_eq!(count_collisions(-1, 1, 100), Err(RunError::Config(ConfigError::NoWorkers)));
    assert_eq!(count_collisions(0, 5, 5), Err(RunError::Config(ConfigError::NoWorkers)));
}

#[test]
fn run_rejects_empty_domain() {
    assert_eq!(count_collisions(4, 100, 100), Err(RunError::Config(ConfigError::EmptyDomain)));
    assert_eq!(count_collisions(4, 100, 1), Err(RunError::Config(ConfigError::EmptyDomain)));
}

const FIRST_BAD: i64 = 757_223 * 127_773;

#[test]
fn extend_stops_at_the_first_failure() {
    let g = Lehmer::new();
    let mut stream: MaxHeap<u64> = MaxHeap::new();
    let r = extend(&g, &mut stream, SubRange { lo: FIRST_BAD - 2, hi: FIRST_BAD + 2 });
    assert_eq!(r, Err(Failure { at: FIRST_BAD, error: GeneratorError::NegativeMantissa }));
    assert_eq!(stream.len(), 2);
    let mut expected = vec![g.generate(FIRST_BAD - 2).unwrap(), g.generate(FIRST_BAD - 1).unwrap()];
    expected.sort();
    expected.reverse();
    assert_eq!(drain(stream), expected);
}

#[test]
fn produce_reports_the_first_failure() {
    let g = Lehmer::new();
    let r = produce(&g, SubRange { lo: FIRST_BAD - 5, hi: FIRST_BAD + 5 });
    assert_eq!(r.err(), Some(Failure { at: FIRST_BAD, error: GeneratorError::NegativeMantissa }));
    assert!(produce(&g, SubRange { lo: FIRST_BAD - 5, hi: FIRST_BAD }).is_ok());
}

#[test]
fn run_reports_the_first_failure() {
    let expected = Err(RunError::Generator(Failure {
        at: FIRST_BAD,
        error: GeneratorError::NegativeMantissa,
    }));
    for w in [1i64, 2, 3, 6] {
        assert_eq!(count_collisions(w, FIRST_BAD - 3, FIRST_BAD + 3), expected);
    }
    assert_eq!(
        count_collisions(2, FIRST_BAD - 3, FIRST_BAD),
        Ok(brute_force(FIRST_BAD - 3, FIRST_BAD))
    );
}
