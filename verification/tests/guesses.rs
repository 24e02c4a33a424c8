use combomatic::config::{Candidate, Config, ConfigError};
use combomatic::ring::modular_distance;

fn config(min: u64, max: u64, range: u64, combination: Vec<u64>) -> Config {
    Config { min, max, range, combination, csv: false }
}

#[test]
fn range_zero() {
    let combination: Vec<u64> = vec![0, 1, 2];

    let config = Config {
        min: 0,
        max: 99,
        range: 0,
        csv: false,
        combination: combination.clone(),
    };

    assert_eq!(config.guesses().unwrap(), &[combination]);
}

#[test]
fn range_one() {
    let combination: Vec<u64> = vec![0];

    let config = Config {
        min: 0,
        max: 99,
        range: 1,
        csv: false,
        combination: combination.clone(),
    };

    assert_eq!(config.guesses().unwrap().len(), 3);
}

#[test]
fn range_one_two() {
    let combination: Vec<u64> = vec![0, 1];

    let config = Config {
        min: 0,
        max: 99,
        range: 1,
        csv: false,
        combination: combination.clone(),
    };

    assert_eq!(config.guesses().unwrap().len(), 9);
}

#[test]
fn modular_distance_misc() {
    assert_eq!(modular_distance(0, 1, 10), 1);
    assert_eq!(modular_distance(0, 9, 10), 1);
    assert_eq!(modular_distance(0, 1, 2), 1);
    assert_eq!(modular_distance(0, 0, 2), 0);
    assert_eq!(modular_distance(0, 9, 11), 2);
    assert_eq!(modular_distance(0, 9, 100), 9);
}

#[test]
fn radius_zero_single_candidate() {
    let guesses: Vec<Vec<u64>> = config(0, 9, 0, vec![5]).guesses().unwrap();
    assert_eq!(guesses, &[vec![5]]);

    let candidates: Vec<Candidate> = config(0, 9, 0, vec![5]).run().unwrap();
    assert_eq!(candidates.len(), 1);
    assert_eq!(candidates[0].digits, vec![5]);
    assert_eq!(candidates[0].errors, 0);
}

#[test]
fn wraparound_pair_radius_one() {
    let guesses: Vec<Vec<u64>> = config(0, 99, 1, vec![0, 1]).guesses().unwrap();
    assert_eq!(guesses.len(), 9);
    for guess in &guesses {
        assert_eq!(guess.len(), 2);
        for n in guess {
            assert!(*n <= 99);
        }
    }
    // The base combination itself is the only zero-error candidate, so it
    // comes first; shifting the first digit down from 0 wraps to 99.
    assert_eq!(guesses[0], vec![0, 1]);
    assert!(guesses.contains(&vec![99, 0]));
    assert!(guesses.contains(&vec![99, 2]));
}

#[test]
fn stable_ordering_single_dial() {
    // Candidates are generated as 9, 0, 1; ties on one error keep that
    // generation order after the zero-error base.
    let guesses: Vec<Vec<u64>> = config(0, 9, 1, vec![0]).guesses().unwrap();
    assert_eq!(guesses, vec![vec![0], vec![9], vec![1]]);
}

#[test]
fn run_scores_single_dial() {
    let candidates: Vec<Candidate> = config(0, 9, 1, vec![0]).run().unwrap();
    let flat: Vec<(Vec<u64>, u64)> =
        candidates.into_iter().map(|c| (c.digits, c.errors)).collect();
    assert_eq!(flat, vec![(vec![0], 0), (vec![9], 1), (vec![1], 1)]);
}

#[test]
fn empty_combination_rejected() {
    let err: ConfigError = config(0, 99, 2, vec![]).guesses().unwrap_err();
    assert_eq!(err, ConfigError::EmptyCombination);
}

#[test]
fn inverted_bounds_rejected() {
    let err: ConfigError = config(5, 2, 1, vec![3]).guesses().unwrap_err();
    assert_eq!(err, ConfigError::InvalidRingBounds);
}

#[test]
fn digit_out_of_range_rejected() {
    let err: ConfigError = config(0, 9, 1, vec![10]).guesses().unwrap_err();
    assert_eq!(err, ConfigError::DigitOutOfRange);

    let low: ConfigError = config(5, 9, 1, vec![4]).guesses().unwrap_err();
    assert_eq!(low, ConfigError::DigitOutOfRange);
}

#[test]
fn huge_radius_rejected() {
    let err: ConfigError = config(0, 99, u64::MAX, vec![0]).guesses().unwrap_err();
    assert_eq!(err, ConfigError::SearchSpaceOverflow);
}

#[test]
fn deep_search_space_rejected() {
    // 3^41 exceeds u64::MAX.
    let combination: Vec<u64> = vec![0; 41];
    let err: ConfigError = config(0, 99, 1, combination).guesses().unwrap_err();
    assert_eq!(err, ConfigError::SearchSpaceOverflow);
}

#[test]
fn modulus_of_offset_ring() {
    let m: u64 = config(10, 19, 1, vec![10]).modulus();
    assert_eq!(m, 10);
}

#[test]
fn errors_of_mixed_guess() {
    let c = config(0, 99, 2, vec![0, 50]);
    assert_eq!(c.errors(&[99, 40]), 1 + 10);
    assert_eq!(c.errors(&[0, 50]), 0);
}

#[test]
fn offset_ring_wraps_below_min() {
    // Digits stay within [min, max] even when the shift crosses min.
    let guesses: Vec<Vec<u64>> = config(10, 12, 1, vec![10]).guesses().unwrap();
    assert_eq!(guesses, vec![vec![10], vec![12], vec![11]]);
}
