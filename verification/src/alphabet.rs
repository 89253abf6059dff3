//! The alphabet: an ordered catalogue of letters, each with its canonical upper and lower form
//! and the variant characters (other case, accented glyphs) that fold to it.

use crate::strings::{contains_char, push_char};
use vstd::prelude::*;

verus! {

/// One letter of an alphabet.
#[derive(Debug)]
pub struct AlphabetLetter {
    /// Every character accepted as a lower-case form of the letter.
    pub lowers: String,
    /// Every character accepted as an upper-case form of the letter.
    pub uppers: String,
    /// The canonical upper-case form.
    pub upper: char,
    /// The canonical lower-case form; all variants fold to it.
    pub lower: char,
}

/// An ordered collection of letters and a nominal size.
#[derive(Debug)]
pub struct Alphabet {
    pub letters: Vec<AlphabetLetter>,
    /// The nominal size of the alphabet. For a truncated alphabet it is the truncation width,
    /// which can exceed the number of letters that were retained.
    pub power: i32,
}

/// Mathematical model of an [`AlphabetLetter`].
pub struct LetterView {
    pub lowers: Seq<char>,
    pub uppers: Seq<char>,
    pub upper: char,
    pub lower: char,
}

/// Mathematical model of an [`Alphabet`].
pub struct AlphabetView {
    pub letters: Seq<LetterView>,
    pub power: int,
}

impl LetterView {
    /// `ch` is one of the variants of the letter, in either case.
    pub open spec fn accepts(self, ch: char) -> bool {
        self.lowers.contains(ch) || self.uppers.contains(ch)
    }

    /// Each canonical form is among the variants of its own case.
    pub open spec fn wf(self) -> bool {
        self.lowers.contains(self.lower) && self.uppers.contains(self.upper)
    }

    /// The two characters by which the letter is displayed.
    pub open spec fn rendering(self) -> Seq<char> {
        seq![self.upper, self.lower]
    }
}

impl AlphabetView {
    /// Some letter accepts `ch`.
    pub open spec fn has_letter(self, ch: char) -> bool {
        exists|i: int| 0 <= i < self.letters.len() && #[trigger] self.letters[i].accepts(ch)
    }

    /// Letter `i` accepts `ch` and no letter before it does.
    pub open spec fn is_first_match(self, ch: char, i: int) -> bool {
        &&& 0 <= i < self.letters.len()
        &&& self.letters[i].accepts(ch)
        &&& forall|j: int| 0 <= j < i ==> !#[trigger] self.letters[j].accepts(ch)
    }

    /// The position of the first letter that accepts `ch`; arbitrary if there is none.
    pub open spec fn match_index(self, ch: char) -> int {
        choose|i: int| self.is_first_match(ch, i)
    }

    /// The first letter, in catalogue order, that accepts `ch`.
    pub open spec fn find_letter(self, ch: char) -> Option<LetterView> {
        if self.has_letter(ch) {
            Some(self.letters[self.match_index(ch)])
        } else {
            None
        }
    }

    /// The canonical lower-case letter that `ch` folds to, if any letter accepts it.
    pub open spec fn canonical(self, ch: char) -> Option<char> {
        match self.find_letter(ch) {
            Some(letter) => Some(letter.lower),
            None => None,
        }
    }

    /// Letter `i` has the canonical lower-case form `lower` and no letter before it has.
    pub open spec fn is_first_with_lower(self, lower: char, i: int) -> bool {
        &&& 0 <= i < self.letters.len()
        &&& self.letters[i].lower == lower
        &&& forall|j: int| 0 <= j < i ==> (#[trigger] self.letters[j]).lower != lower
    }

    /// The first letter, in catalogue order, whose canonical lower-case form is `lower`.
    pub open spec fn letter_of(self, lower: char) -> Option<LetterView> {
        if exists|i: int| self.is_first_with_lower(lower, i) {
            Some(self.letters[choose|i: int| self.is_first_with_lower(lower, i)])
        } else {
            None
        }
    }

    /// Every letter is well formed and no canonical lower-case form occurs twice.
    pub open spec fn wf(self) -> bool {
        &&& forall|i: int| 0 <= i < self.letters.len() ==> #[trigger] self.letters[i].wf()
        &&& forall|i: int, j: int|
            0 <= i < j < self.letters.len() ==> (#[trigger] self.letters[i]).lower != (
            #[trigger] self.letters[j]).lower
    }

    /// Letters `i` and `j` accept a common character.
    pub open spec fn share_variant(self, i: int, j: int) -> bool {
        exists|ch: char| self.letters[i].accepts(ch) && self.letters[j].accepts(ch)
    }

    /// No character is accepted by two letters.
    pub open spec fn unambiguous(self) -> bool {
        forall|i: int, j: int|
            0 <= i < j < self.letters.len() ==> !#[trigger] self.share_variant(i, j)
    }

    /// Every canonical letter that a character folds to folds to itself.
    pub open spec fn canonical_is_fixed(self) -> bool {
        forall|ch: char|
            #![trigger self.canonical(ch)]
            self.canonical(ch) is Some ==> self.canonical(self.canonical(ch)->0)
                == self.canonical(ch)
    }

    /// The canonical upper then lower character of each letter, in catalogue order.
    pub open spec fn rendering(self) -> Seq<char> {
        self.letters.flat_map(|letter: LetterView| letter.rendering())
    }
}

/// A letter that accepts `ch` with none before it is the one that `find_letter` yields.
pub proof fn lemma_first_match_is_found(alphabet: AlphabetView, ch: char, i: int)
    requires
        alphabet.is_first_match(ch, i),
    ensures
        alphabet.has_letter(ch),
        alphabet.match_index(ch) == i,
        alphabet.find_letter(ch) == Some(alphabet.letters[i]),
{
    let k = alphabet.match_index(ch);
    assert(alphabet.is_first_match(ch, k));
    if k < i {
        assert(!alphabet.letters[k].accepts(ch));
    } else if i < k {
        assert(!alphabet.letters[i].accepts(ch));
    }
}

/// Among the letters up to `bound` that accept `ch` there is a first one.
proof fn lemma_first_match_below(alphabet: AlphabetView, ch: char, bound: int)
    requires
        0 <= bound < alphabet.letters.len(),
        alphabet.letters[bound].accepts(ch),
    ensures
        exists|i: int| alphabet.is_first_match(ch, i),
    decreases bound,
{
    if exists|j: int| 0 <= j < bound && #[trigger] alphabet.letters[j].accepts(ch) {
        let j = choose|j: int| 0 <= j < bound && #[trigger] alphabet.letters[j].accepts(ch);
        lemma_first_match_below(alphabet, ch, j);
    } else {
        assert(alphabet.is_first_match(ch, bound));
    }
}

/// `find_letter` yields a letter exactly for the characters that some letter accepts, and the
/// letter it yields is the first to accept the character.
pub proof fn lemma_find_letter(alphabet: AlphabetView, ch: char)
    ensures
        alphabet.find_letter(ch) is Some <==> alphabet.has_letter(ch),
        alphabet.canonical(ch) is Some <==> alphabet.has_letter(ch),
        alphabet.has_letter(ch) ==> alphabet.is_first_match(ch, alphabet.match_index(ch)),
{
    if alphabet.has_letter(ch) {
        let w = choose|i: int|
            0 <= i < alphabet.letters.len() && #[trigger] alphabet.letters[i].accepts(ch);
        lemma_first_match_below(alphabet, ch, w);
    }
}

/// Every letter of the alphabet is found by its canonical lower-case form.
pub proof fn lemma_letter_of_exists(alphabet: AlphabetView, i: int)
    requires
        0 <= i < alphabet.letters.len(),
    ensures
        alphabet.letter_of(alphabet.letters[i].lower) is Some,
    decreases i,
{
    let lower = alphabet.letters[i].lower;
    if exists|j: int| 0 <= j < i && (#[trigger] alphabet.letters[j]).lower == lower {
        let j = choose|j: int| 0 <= j < i && (#[trigger] alphabet.letters[j]).lower == lower;
        lemma_letter_of_exists(alphabet, j);
    } else {
        assert(alphabet.is_first_with_lower(lower, i));
    }
}

impl View for AlphabetLetter {
    type V = LetterView;

    open spec fn view(&self) -> LetterView {
        LetterView {
            lowers: self.lowers@,
            uppers: self.uppers@,
            upper: self.upper,
            lower: self.lower,
        }
    }
}

impl View for Alphabet {
    type V = AlphabetView;

    open spec fn view(&self) -> AlphabetView {
        AlphabetView {
            letters: self.letters@.map_values(|letter: AlphabetLetter| letter@),
            power: self.power as int,
        }
    }
}

impl Clone for AlphabetLetter {
    fn clone(&self) -> (copy: Self)
        ensures
            copy == *self,
    {
        AlphabetLetter {
            lowers: self.lowers.clone(),
            uppers: self.uppers.clone(),
            upper: self.upper,
            lower: self.lower,
        }
    }
}

impl AlphabetLetter {
    /// Whether `ch` is one of the variants of this letter, in either case.
    pub fn accepts(&self, ch: char) -> (accepted: bool)
        ensures
            accepted == self@.accepts(ch),
    {
        contains_char(self.lowers.as_str(), ch) || contains_char(self.uppers.as_str(), ch)
    }
}

impl Alphabet {
    /// The first letter, in catalogue order, one of whose variants is `ch`.
    pub fn find_letter(&self, ch: &char) -> (found: Option<&AlphabetLetter>)
        ensures
            match found {
                Some(letter) => self@.find_letter(*ch) == Some(letter@),
                None => self@.find_letter(*ch) is None,
            },
    {
        let mut i: usize = 0;
        while i < self.letters.len()
            invariant
                0 <= i <= self.letters.len(),
                forall|j: int| 0 <= j < i ==> !#[trigger] self@.letters[j].accepts(*ch),
            decreases self.letters.len() - i,
        {
            if self.letters[i].accepts(*ch) {
                proof {
                    assert(self@.letters[i as int] == self.letters[i as int]@);
                    lemma_first_match_is_found(self@, *ch, i as int);
                }
                return Some(&self.letters[i]);
            }
            i = i + 1;
        }
        None
    }

    /// The first letter, in catalogue order, whose canonical lower-case form is `lower`.
    pub fn letter_of(&self, lower: char) -> (found: Option<&AlphabetLetter>)
        ensures
            match found {
                Some(letter) => self@.letter_of(lower) == Some(letter@),
                None => self@.letter_of(lower) is None,
            },
    {
        let mut i: usize = 0;
        while i < self.letters.len()
            invariant
                0 <= i <= self.letters.len(),
                forall|j: int| 0 <= j < i ==> (#[trigger] self@.letters[j]).lower != lower,
            decreases self.letters.len() - i,
        {
            if self.letters[i].lower == lower {
                proof {
                    assert(self@.letters[i as int] == self.letters[i as int]@);
                    assert(self@.is_first_with_lower(lower, i as int));
                    let k = choose|k: int| self@.is_first_with_lower(lower, k);
                    if k < i {
                        assert(self@.letters[k].lower != lower);
                    } else if i < k {
                        assert(self@.letters[i as int].lower != lower);
                    }
                }
                return Some(&self.letters[i]);
            }
            i = i + 1;
        }
        proof {
            if exists|k: int| self@.is_first_with_lower(lower, k) {
                let k = choose|k: int| self@.is_first_with_lower(lower, k);
                assert(self@.letters[k].lower != lower);
            }
        }
        None
    }

    /// Whether some letter has `ch` among its variants.
    pub fn has_letter(&self, ch: &char) -> (found: bool)
        ensures
            found == self@.has_letter(*ch),
    {
        proof {
            lemma_find_letter(self@, *ch);
        }
        match self.find_letter(ch) {
            Some(_) => true,
            _ => false,
        }
    }

    /// Whether some letter has `ch` among its variants.
    pub fn has_letter_der(&self, ch: char) -> (found: bool)
        ensures
            found == self@.has_letter(ch),
    {
        proof {
            lemma_find_letter(self@, ch);
        }
        match self.find_letter(&ch) {
            Some(_) => true,
            _ => false,
        }
    }

    /// A compact text of the alphabet: the canonical upper then lower character of each letter,
    /// in catalogue order.
    pub fn to_string(&self) -> (text: String)
        ensures
            text@ == self@.rendering(),
    {
        let mut text = String::new();
        let ghost render = |letter: LetterView| letter.rendering();
        let mut i: usize = 0;
        while i < self.letters.len()
            invariant
                0 <= i <= self.letters.len(),
                render == |letter: LetterView| letter.rendering(),
                text@ == self@.letters.take(i as int).flat_map(render),
            decreases self.letters.len() - i,
        {
            let letter = &self.letters[i];
            proof {
                self@.letters.lemma_flat_map_take_append(render, i as int);
                assert(self@.letters[i as int] == letter@);
            }
            push_char(&mut text, letter.upper);
            push_char(&mut text, letter.lower);
            i = i + 1;
        }
        assert(self@.letters.take(i as int) =~= self@.letters);
        text
    }
}

} // verus!
