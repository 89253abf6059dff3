use alphabet_entropy::alphabet::Alphabet;
use alphabet_entropy::definition::parse_letter;

fn lines(text: &[&str]) -> Vec<String> {
    text.iter().map(|line| line.to_string()).collect()
}

#[test]
fn parse_letter_reads_the_four_fields() {
    let letter = parse_letter("A,a,ÁA,áa").expect("a well-formed line");
    assert_eq!(letter.upper, 'A');
    assert_eq!(letter.lower, 'a');
    assert_eq!(letter.uppers, "ÁA");
    assert_eq!(letter.lowers, "áa");
}

#[test]
fn parse_letter_takes_the_first_character_of_a_canonical_field() {
    let letter = parse_letter("CH,ch,C,c").expect("a well-formed line");
    assert_eq!(letter.upper, 'C');
    assert_eq!(letter.lower, 'c');
    assert_eq!(letter.uppers, "C");
    assert_eq!(letter.lowers, "c");
}

#[test]
fn parse_letter_accepts_empty_variant_fields() {
    let letter = parse_letter("A,a,,").expect("four fields");
    assert_eq!(letter.upper, 'A');
    assert_eq!(letter.lower, 'a');
    assert_eq!(letter.uppers, "");
    assert_eq!(letter.lowers, "");
}

#[test]
fn parse_letter_passes_over_a_wrong_number_of_fields() {
    assert!(parse_letter("").is_none());
    assert!(parse_letter("A").is_none());
    assert!(parse_letter("A,a").is_none());
    assert!(parse_letter("A,a,A").is_none());
    assert!(parse_letter("A,a,A,a,").is_none());
    assert!(parse_letter("A,a,A,a,x").is_none());
    assert!(parse_letter("A,a,A,a,x,y,z").is_none());
    assert!(parse_letter("# the vowels").is_none());
}

#[test]
fn parse_letter_passes_over_an_empty_canonical_field() {
    assert!(parse_letter(",a,A,a").is_none());
    assert!(parse_letter("A,,A,a").is_none());
    assert!(parse_letter(",,,").is_none());
}

#[test]
fn load_letters_appends_in_order_and_counts() {
    let mut alphabet = Alphabet { letters: vec![], power: 0 };
    alphabet.load_letters(&lines(&["A,a,ÁA,áa", "B,b,B,b", "C,c,C,c"]));
    assert_eq!(alphabet.power, 3);
    assert_eq!(alphabet.letters.len(), 3);
    assert_eq!(alphabet.to_string(), "AaBbCc");
    assert_eq!(alphabet.letters[0].uppers, "ÁA");
    assert_eq!(alphabet.letters[0].lowers, "áa");
    assert_eq!(alphabet.letters[2].lowers, "c");
}

#[test]
fn load_letters_skips_malformed_lines_silently() {
    let mut alphabet = Alphabet { letters: vec![], power: 0 };
    alphabet.load_letters(&lines(&["", "A,a,A,a", "not a letter", "B,b,B", "C,c,C,c,c", "D,d,D,d"]));
    assert_eq!(alphabet.power, 2);
    assert_eq!(alphabet.to_string(), "AaDd");
}

#[test]
fn load_letters_adds_to_what_is_there() {
    let mut alphabet = Alphabet { letters: vec![], power: 0 };
    alphabet.load_letters(&lines(&["A,a,A,a"]));
    alphabet.load_letters(&lines(&["B,b,B,b", "oops"]));
    assert_eq!(alphabet.power, 2);
    assert_eq!(alphabet.to_string(), "AaBb");
}

#[test]
fn load_letters_of_nothing_changes_nothing() {
    let mut alphabet = Alphabet { letters: vec![], power: 0 };
    alphabet.load_letters(&lines(&[]));
    assert_eq!(alphabet.power, 0);
    assert!(alphabet.letters.is_empty());
}

#[test]
fn loaded_letters_match_their_variants() {
    let mut alphabet = Alphabet { letters: vec![], power: 0 };
    alphabet.load_letters(&lines(&["A,a,ÁA,áa", "N,n,N,n", "Ñ,ñ,Ñ,ñ"]));
    assert_eq!(alphabet.find_letter(&'Á').map(|l| l.lower), Some('a'));
    assert_eq!(alphabet.find_letter(&'ñ').map(|l| l.upper), Some('Ñ'));
    assert!(alphabet.find_letter(&',').is_none());
}
