use alphabet_entropy::alphabet::{Alphabet, AlphabetLetter};
use alphabet_entropy::error::StatsError;
use alphabet_entropy::probabilities::Probabilities;
use alphabet_entropy::truncation::comes_before;

fn lower_of(index: u32) -> char {
    char::from_u32(0x0430 + index).expect("a letter")
}

fn upper_of(index: u32) -> char {
    char::from_u32(0x0100 + index).expect("a letter")
}

fn alphabet_of(size: u32) -> Alphabet {
    let mut letters = Vec::new();
    for index in 0..size {
        letters.push(AlphabetLetter {
            upper: upper_of(index),
            lower: lower_of(index),
            uppers: upper_of(index).to_string(),
            lowers: lower_of(index).to_string(),
        });
    }
    Alphabet { letters, power: size as i32 }
}

fn lowers_of(alphabet: &Alphabet) -> Vec<char> {
    alphabet.letters.iter().map(|letter| letter.lower).collect()
}

#[test]
fn thirty_letters_truncate_to_the_ten_most_probable() {
    let alphabet = alphabet_of(30);
    let mut entries = Vec::new();
    let mut total = 0;
    for index in 0..30u32 {
        let count = ((index * 7) % 30 + 1) as u64;
        entries.push((lower_of(index), count));
        total += count;
    }
    let probabilities = Probabilities::from_counts(entries.clone(), total).expect("valid");
    let truncated = alphabet.create_truncated(&probabilities).expect("every letter has an entry");
    assert_eq!(truncated.power, 10);
    assert_eq!(truncated.letters.len(), 10);
    let mut ranked = entries.clone();
    ranked.sort_by(|a, b| b.1.cmp(&a.1));
    let expected: Vec<char> = ranked.iter().take(10).map(|entry| entry.0).collect();
    assert_eq!(lowers_of(&truncated), expected);
    let counts: Vec<u64> = lowers_of(&truncated).iter().map(|&c| probabilities.count(c)).collect();
    assert_eq!(counts, vec![30, 29, 28, 27, 26, 25, 24, 23, 22, 21]);
}

#[test]
fn a_hundred_letters_truncate_to_fifteen() {
    let alphabet = alphabet_of(100);
    let mut entries = Vec::new();
    let mut total = 0;
    for index in 0..100u32 {
        let count = (index + 1) as u64;
        entries.push((lower_of(index), count));
        total += count;
    }
    let probabilities = Probabilities::from_counts(entries, total).expect("valid");
    let truncated = alphabet.create_truncated(&probabilities).expect("every letter has an entry");
    assert_eq!(truncated.power, 15);
    assert_eq!(truncated.letters.len(), 15);
    let expected: Vec<char> = (0..15u32).map(|rank| lower_of(99 - rank)).collect();
    assert_eq!(lowers_of(&truncated), expected);
}

#[test]
fn the_width_is_a_third_of_the_letters_rounded_down() {
    let probabilities = Probabilities::from_counts(vec![], 0).expect("valid");
    for (size, width) in [(0, 0), (1, 0), (2, 0), (3, 1), (5, 1), (6, 2), (44, 14), (45, 15), (46, 15), (47, 15), (48, 15), (90, 15)] {
        let truncated = alphabet_of(size).create_truncated(&probabilities).expect("nothing chosen");
        assert_eq!(truncated.power, width);
        assert!(truncated.letters.is_empty());
    }
}

#[test]
fn fewer_letters_than_the_width_are_all_kept() {
    let alphabet = alphabet_of(30);
    let probabilities = Probabilities::from_counts(
        vec![(lower_of(4), 1), (lower_of(20), 5), (lower_of(9), 3)],
        9,
    )
    .expect("valid");
    let truncated = alphabet.create_truncated(&probabilities).expect("every letter has an entry");
    assert_eq!(truncated.power, 10);
    assert_eq!(lowers_of(&truncated), vec![lower_of(20), lower_of(9), lower_of(4)]);
}

#[test]
fn equal_probabilities_are_ranked_by_letter() {
    let alphabet = alphabet_of(9);
    let probabilities = Probabilities::from_counts(
        vec![
            (lower_of(7), 2),
            (lower_of(2), 2),
            (lower_of(5), 9),
            (lower_of(0), 2),
            (lower_of(3), 2),
        ],
        17,
    )
    .expect("valid");
    let truncated = alphabet.create_truncated(&probabilities).expect("every letter has an entry");
    assert_eq!(truncated.power, 3);
    assert_eq!(lowers_of(&truncated), vec![lower_of(5), lower_of(0), lower_of(2)]);
}

#[test]
fn the_order_of_the_entries_does_not_change_the_choice() {
    let alphabet = alphabet_of(9);
    let forward = Probabilities::from_counts(
        vec![(lower_of(1), 4), (lower_of(2), 4), (lower_of(3), 6), (lower_of(4), 1)],
        15,
    )
    .expect("valid");
    let backward = Probabilities::from_counts(
        vec![(lower_of(4), 1), (lower_of(3), 6), (lower_of(2), 4), (lower_of(1), 4)],
        15,
    )
    .expect("valid");
    let first = alphabet.create_truncated(&forward).expect("found");
    let second = alphabet.create_truncated(&backward).expect("found");
    assert_eq!(lowers_of(&first), vec![lower_of(3), lower_of(1), lower_of(2)]);
    assert_eq!(lowers_of(&second), lowers_of(&first));
}

#[test]
fn letters_outside_the_alphabet_are_never_chosen() {
    let alphabet = alphabet_of(6);
    let probabilities = Probabilities::from_counts(
        vec![('z', 50), (lower_of(1), 2), ('q', 40), (lower_of(3), 3), (lower_of(5), 1)],
        96,
    )
    .expect("valid");
    let truncated = alphabet.create_truncated(&probabilities).expect("every letter has an entry");
    assert_eq!(truncated.power, 2);
    assert_eq!(lowers_of(&truncated), vec![lower_of(3), lower_of(1)]);
}

#[test]
fn the_truncated_alphabet_holds_whole_entries() {
    let mut alphabet = alphabet_of(3);
    alphabet.letters[1].uppers = "ÉE".to_string();
    alphabet.letters[1].lowers = format!("é{}", lower_of(1));
    let probabilities =
        Probabilities::from_counts(vec![(lower_of(0), 1), (lower_of(1), 3)], 4).expect("valid");
    let truncated = alphabet.create_truncated(&probabilities).expect("every letter has an entry");
    assert_eq!(truncated.letters.len(), 1);
    assert_eq!(truncated.letters[0].lower, lower_of(1));
    assert_eq!(truncated.letters[0].upper, upper_of(1));
    assert_eq!(truncated.letters[0].uppers, "ÉE");
    assert_eq!(truncated.letters[0].lowers, format!("é{}", lower_of(1)));
    assert_eq!(alphabet.letters.len(), 3);
    assert_eq!(alphabet.power, 3);
}

#[test]
fn a_chosen_variant_without_an_entry_of_its_own_is_not_found() {
    let mut alphabet = alphabet_of(3);
    alphabet.letters[0].lowers = format!("á{}", lower_of(0));
    let probabilities =
        Probabilities::from_counts(vec![('á', 5), (lower_of(1), 1)], 6).expect("valid");
    assert_eq!(alphabet.create_truncated(&probabilities).err(), Some(StatsError::LetterNotFound));
}

#[test]
fn a_variant_without_an_entry_that_is_not_chosen_does_no_harm() {
    let mut alphabet = alphabet_of(3);
    alphabet.letters[0].lowers = format!("á{}", lower_of(0));
    let probabilities =
        Probabilities::from_counts(vec![('á', 1), (lower_of(1), 5)], 6).expect("valid");
    let truncated = alphabet.create_truncated(&probabilities).expect("the variant is not chosen");
    assert_eq!(lowers_of(&truncated), vec![lower_of(1)]);
}

#[test]
fn truncating_what_was_counted() {
    let mut alphabet = alphabet_of(6);
    alphabet.letters[2].uppers = "XY".to_string();
    let corpus = format!(
        "{a}{b}{a}X{c}{a} Y {b}?X{d}",
        a = lower_of(0),
        b = lower_of(1),
        c = lower_of(3),
        d = lower_of(5)
    );
    let probabilities = alphabet.count_probabilities(&corpus);
    assert_eq!(probabilities.total(), 10);
    let truncated = alphabet.create_truncated(&probabilities).expect("counted letters have entries");
    assert_eq!(truncated.power, 2);
    assert_eq!(lowers_of(&truncated), vec![lower_of(0), lower_of(2)]);
    assert_eq!(truncated.letters[1].uppers, "XY");
    let reduced = probabilities.restricted_to(&truncated);
    assert_eq!(reduced.entries(), &vec![(lower_of(0), 3), (lower_of(2), 3)]);
    assert_eq!(reduced.total(), 10);
}

#[test]
fn comes_before_ranks_by_occurrences_then_by_letter() {
    assert!(comes_before(('b', 3), ('a', 2)));
    assert!(!comes_before(('a', 2), ('b', 3)));
    assert!(comes_before(('a', 2), ('b', 2)));
    assert!(!comes_before(('b', 2), ('a', 2)));
    assert!(!comes_before(('a', 2), ('a', 2)));
}
