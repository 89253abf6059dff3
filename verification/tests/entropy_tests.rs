use alphabet_entropy::alphabet::{Alphabet, AlphabetLetter};
use alphabet_entropy::error::StatsError;
use alphabet_entropy::probabilities::Probabilities;

fn letter(upper: char, lower: char) -> AlphabetLetter {
    AlphabetLetter { upper, lower, uppers: upper.to_string(), lowers: lower.to_string() }
}

fn sized(power: i32) -> Alphabet {
    Alphabet { letters: vec![letter('A', 'a'), letter('B', 'b')], power }
}

#[test]
fn entropy_power_is_the_nominal_size() {
    assert_eq!(sized(1).entropy_power(), Ok(1));
    assert_eq!(sized(2).entropy_power(), Ok(2));
    assert_eq!(sized(27).entropy_power(), Ok(27));
    assert_eq!(sized(i32::MAX).entropy_power(), Ok(2147483647));
}

#[test]
fn entropy_power_refuses_a_size_that_is_not_positive() {
    assert_eq!(sized(0).entropy_power(), Err(StatsError::InvalidAlphabet));
    assert_eq!(sized(-1).entropy_power(), Err(StatsError::InvalidAlphabet));
    assert_eq!(sized(i32::MIN).entropy_power(), Err(StatsError::InvalidAlphabet));
}

#[test]
fn the_logarithm_of_the_entropy_power_grows_with_the_size() {
    let mut last = -1.0_f64;
    for power in 1..200 {
        let optimal = (sized(power).entropy_power().expect("positive") as f64).log2();
        assert!(optimal > last);
        last = optimal;
    }
    assert_eq!((sized(1).entropy_power().expect("positive") as f64).log2(), 0.0);
    assert_eq!((sized(8).entropy_power().expect("positive") as f64).log2(), 3.0);
}

#[test]
fn check_redundancy_looks_at_the_alphabet_first() {
    let certain = Probabilities::from_counts(vec![('a', 4)], 4).expect("valid");
    let mixed = Probabilities::from_counts(vec![('a', 3), ('b', 1)], 4).expect("valid");
    assert_eq!(sized(0).check_redundancy(&certain), Err(StatsError::InvalidAlphabet));
    assert_eq!(sized(0).check_redundancy(&mixed), Err(StatsError::InvalidAlphabet));
    assert_eq!(sized(-3).check_redundancy(&mixed), Err(StatsError::InvalidAlphabet));
}

#[test]
fn check_redundancy_refuses_an_entropy_of_zero() {
    let certain = Probabilities::from_counts(vec![('a', 4)], 4).expect("valid");
    let empty = Probabilities::from_counts(vec![], 0).expect("valid");
    let zeros = Probabilities::from_counts(vec![('a', 0), ('b', 0)], 9).expect("valid");
    assert_eq!(sized(2).check_redundancy(&certain), Err(StatsError::DivisionByZero));
    assert_eq!(sized(2).check_redundancy(&empty), Err(StatsError::DivisionByZero));
    assert_eq!(sized(2).check_redundancy(&zeros), Err(StatsError::DivisionByZero));
}

#[test]
fn check_redundancy_gives_the_size_where_the_redundancy_is_defined() {
    let mixed = Probabilities::from_counts(vec![('a', 3), ('b', 1)], 4).expect("valid");
    let partial = Probabilities::from_counts(vec![('a', 1)], 4).expect("valid");
    assert_eq!(sized(2).check_redundancy(&mixed), Ok(2));
    assert_eq!(sized(15).check_redundancy(&partial), Ok(15));
}

#[test]
fn a_uniform_mapping_has_the_entropy_of_its_size() {
    let uniform =
        Probabilities::from_counts(vec![('a', 5), ('b', 5), ('c', 5), ('d', 5)], 20).expect("valid");
    let total = uniform.total() as f64;
    let mut entropy = 0.0;
    for &(_, count) in uniform.entries() {
        let p = count as f64 / total;
        entropy -= p * p.log2();
    }
    assert_eq!(entropy, 2.0);
    let skewed =
        Probabilities::from_counts(vec![('a', 8), ('b', 4), ('c', 4), ('d', 4)], 20).expect("valid");
    let mut lower = 0.0;
    for &(_, count) in skewed.entries() {
        let p = count as f64 / total;
        lower -= p * p.log2();
    }
    assert!(lower < 2.0);
    assert!(lower > 0.0);
}
