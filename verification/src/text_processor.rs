//! Purging: the pass that drops every character outside the alphabet and folds the others to
//! their canonical lower-case letter.

use crate::alphabet::{lemma_find_letter, lemma_first_match_is_found, Alphabet, AlphabetView};
use crate::strings::push_char;
use vstd::prelude::*;
use vstd::string::*;

verus! {

/// The text with every character replaced by the canonical lower-case letter it folds to, and
/// dropped where no letter accepts it.
pub open spec fn purged(alphabet: AlphabetView, text: Seq<char>) -> Seq<char> {
    text.filter_map(|ch: char| alphabet.canonical(ch))
}

/// One purged line of output: the purged characters and a line terminator.
pub open spec fn purged_line(alphabet: AlphabetView, line: Seq<char>) -> Seq<char> {
    purged(alphabet, line).push('\n')
}

/// The purged lines, one after the other.
pub open spec fn purged_text(alphabet: AlphabetView, lines: Seq<Seq<char>>) -> Seq<char> {
    lines.flat_map(|line: Seq<char>| purged_line(alphabet, line))
}

/// Purging a text that ends in `ch` purges what is before it and then folds `ch`.
pub proof fn lemma_purged_push(alphabet: AlphabetView, text: Seq<char>, ch: char)
    ensures
        purged(alphabet, text.push(ch)) == match alphabet.canonical(ch) {
            Some(letter) => purged(alphabet, text).push(letter),
            None => purged(alphabet, text),
        },
{
    assert(text.push(ch).drop_last() =~= text);
    assert(text.push(ch).last() == ch);
    match alphabet.canonical(ch) {
        Some(letter) => {
            assert(purged(alphabet, text) + seq![letter] =~= purged(alphabet, text).push(letter));
        },
        None => {},
    }
}

/// Nothing but canonical lower-case letters of the alphabet is left in a purged text.
pub proof fn lemma_purged_is_canonical(alphabet: AlphabetView, text: Seq<char>, i: int)
    requires
        0 <= i < purged(alphabet, text).len(),
    ensures
        exists|ch: char| #[trigger]
            text.contains(ch) && alphabet.canonical(ch) == Some(purged(alphabet, text)[i]),
{
    let fold = |ch: char| alphabet.canonical(ch);
    let letter = purged(alphabet, text)[i];
    assert(text.filter_map(fold).contains(letter));
    text.lemma_filter_map_contains(fold, letter);
    let ch = choose|ch: char| #[trigger] text.contains(ch) && fold(ch) == Some(letter);
    assert(text.contains(ch) && alphabet.canonical(ch) == Some(letter));
}

/// Purging is idempotent over an alphabet in which every canonical letter folds to itself:
/// a second pass leaves a purged text as it is.
pub proof fn lemma_purge_idempotent(alphabet: AlphabetView, text: Seq<char>)
    requires
        alphabet.canonical_is_fixed(),
    ensures
        purged(alphabet, purged(alphabet, text)) == purged(alphabet, text),
    decreases text.len(),
{
    if text.len() > 0 {
        let init = text.drop_last();
        let ch = text.last();
        assert(init.push(ch) =~= text);
        lemma_purge_idempotent(alphabet, init);
        lemma_purged_push(alphabet, init, ch);
        match alphabet.canonical(ch) {
            Some(letter) => {
                lemma_purged_push(alphabet, purged(alphabet, init), letter);
            },
            None => {},
        }
    }
}

/// Where every letter is well formed and no character is accepted by two letters, every
/// canonical letter folds to itself.
pub proof fn lemma_unambiguous_fixes_canonical(alphabet: AlphabetView)
    requires
        alphabet.wf(),
        alphabet.unambiguous(),
    ensures
        alphabet.canonical_is_fixed(),
{
    assert forall|ch: char| #![trigger alphabet.canonical(ch)]
        alphabet.canonical(ch) is Some implies alphabet.canonical(alphabet.canonical(ch)->0)
        == alphabet.canonical(ch) by {
        lemma_find_letter(alphabet, ch);
        let k = alphabet.match_index(ch);
        let letter = alphabet.letters[k];
        assert(letter.wf());
        assert(letter.accepts(letter.lower));
        assert(alphabet.is_first_match(letter.lower, k)) by {
            assert forall|j: int| 0 <= j < k implies !#[trigger] alphabet.letters[j].accepts(
                letter.lower,
            ) by {
                if alphabet.letters[j].accepts(letter.lower) {
                    assert(alphabet.share_variant(j, k));
                }
            }
        }
        lemma_first_match_is_found(alphabet, letter.lower, k);
    }
}

/// The characters of `value` that the alphabet accepts, each folded to its canonical
/// lower-case letter, followed by a line terminator.
pub fn alphabet_letters_only(alphabet: &Alphabet, value: &str) -> (result: String)
    ensures
        result@ == purged_line(alphabet@, value@),
{
    let mut result = String::new();
    for ch in iter: value.chars()
        invariant
            iter.seq() == value@,
            result@ == purged(alphabet@, value@.take(iter.index())),
    {
        proof {
            assert(value@.take(iter.index() + 1) =~= value@.take(iter.index()).push(ch));
            lemma_purged_push(alphabet@, value@.take(iter.index()), ch);
        }
        if let Some(letter) = alphabet.find_letter(&ch) {
            push_char(&mut result, letter.lower);
        }
    }
    assert(value@.take(value@.len() as int) =~= value@);
    push_char(&mut result, '\n');
    result
}

/// Purges `input` line by line: the output holds, for each line in order, its purged
/// characters and a line terminator.
pub fn purge(input: &Vec<String>, alphabet: &Alphabet) -> (output: String)
    ensures
        output@ == purged_text(alphabet@, input@.map_values(|line: String| line@)),
{
    let mut output = String::new();
    let ghost lines = input@.map_values(|line: String| line@);
    let ghost clear = |line: Seq<char>| purged_line(alphabet@, line);
    let mut i: usize = 0;
    while i < input.len()
        invariant
            0 <= i <= input.len(),
            lines == input@.map_values(|line: String| line@),
            clear == |line: Seq<char>| purged_line(alphabet@, line),
            output@ == lines.take(i as int).flat_map(clear),
        decreases input.len() - i,
    {
        let cleared = alphabet_letters_only(alphabet, input[i].as_str());
        proof {
            lines.lemma_flat_map_take_append(clear, i as int);
        }
        output.append(cleared.as_str());
        i = i + 1;
    }
    assert(lines.take(i as int) =~= lines);
    output
}

} // verus!
