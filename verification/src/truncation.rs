//! Truncation: the reduced alphabet of the most frequent letters.

use crate::alphabet::{
    lemma_find_letter, lemma_letter_of_exists, Alphabet, AlphabetLetter, AlphabetView,
};
use crate::error::StatsError;
use crate::probabilities::{
    distinct_keys, first_occurrences, lemma_filter_keeps_distinct, lemma_first_occurrences,
    lemma_tally_distinct, tally, Probabilities, ProbabilitiesView,
};
use crate::text_processor::{lemma_purged_is_canonical, purged};
use vstd::prelude::*;

verus! {

/// The order of selection: the entry with more occurrences comes first, and of two with
/// equally many the one with the smaller letter.
pub open spec fn outranks(a: (char, u64), b: (char, u64)) -> bool {
    a.1 > b.1 || (a.1 == b.1 && a.0 < b.0)
}

/// How many letters a truncated alphabet keeps at most: a third of the letters, and never
/// more than 15.
pub open spec fn truncation_width(letters: nat) -> nat {
    if letters / 3 < 15 {
        letters / 3
    } else {
        15
    }
}

/// `chosen` holds the `width` first of `candidates` in the order of selection, in that order,
/// or all of them where there are fewer.
pub open spec fn is_ranking(
    candidates: Seq<(char, u64)>,
    width: nat,
    chosen: Seq<(char, u64)>,
) -> bool {
    &&& chosen.len() == if candidates.len() < width {
        candidates.len()
    } else {
        width
    }
    &&& forall|i: int| 0 <= i < chosen.len() ==> candidates.contains(#[trigger] chosen[i])
    &&& forall|i: int, j: int|
        0 <= i < j < chosen.len() ==> outranks(#[trigger] chosen[i], #[trigger] chosen[j])
    &&& forall|i: int, k: int|
        0 <= i < chosen.len() && 0 <= k < candidates.len() && !chosen.contains(candidates[k])
            ==> outranks(#[trigger] chosen[i], #[trigger] candidates[k])
}

/// The `width` first of `candidates` in the order of selection.
pub open spec fn ranking(candidates: Seq<(char, u64)>, width: nat) -> Seq<(char, u64)> {
    choose|chosen: Seq<(char, u64)>| is_ranking(candidates, width, chosen)
}

/// Whether `a` comes before `b` in the order of selection.
pub fn comes_before(a: (char, u64), b: (char, u64)) -> (before: bool)
    ensures
        before == outranks(a, b),
{
    a.1 > b.1 || (a.1 == b.1 && a.0 < b.0)
}

/// Of two entries with different letters one comes before the other, and never both.
pub proof fn lemma_outranks_total(a: (char, u64), b: (char, u64))
    ensures
        !(outranks(a, b) && outranks(b, a)),
        a.0 != b.0 ==> outranks(a, b) || outranks(b, a),
{
}

/// There is one ranking only: two sequences that each hold the `width` first of the same
/// candidates, in the order of selection, are equal.
pub proof fn lemma_ranking_unique(
    candidates: Seq<(char, u64)>,
    width: nat,
    first: Seq<(char, u64)>,
    second: Seq<(char, u64)>,
)
    requires
        is_ranking(candidates, width, first),
        is_ranking(candidates, width, second),
    ensures
        first == second,
{
    assert forall|i: int| 0 <= i < first.len() implies first[i] == second[i] by {
        lemma_ranking_agrees(candidates, width, first, second, i);
    }
    assert(first =~= second);
}

/// Two rankings of the same candidates agree up to and at position `i`.
proof fn lemma_ranking_agrees(
    candidates: Seq<(char, u64)>,
    width: nat,
    first: Seq<(char, u64)>,
    second: Seq<(char, u64)>,
    i: int,
)
    requires
        is_ranking(candidates, width, first),
        is_ranking(candidates, width, second),
        0 <= i < first.len(),
    ensures
        forall|k: int| 0 <= k <= i ==> first[k] == second[k],
    decreases i,
{
    if i > 0 {
        lemma_ranking_agrees(candidates, width, first, second, i - 1);
    }
    if first[i] != second[i] {
        lemma_ranked_below(candidates, width, first, second, i);
        lemma_ranked_below(candidates, width, second, first, i);
    }
}

/// Where two rankings agree before position `i` and differ at it, the entry of the second
/// comes before the entry of the first.
proof fn lemma_ranked_below(
    candidates: Seq<(char, u64)>,
    width: nat,
    first: Seq<(char, u64)>,
    second: Seq<(char, u64)>,
    i: int,
)
    requires
        is_ranking(candidates, width, first),
        is_ranking(candidates, width, second),
        0 <= i < first.len(),
        forall|k: int| 0 <= k < i ==> first[k] == second[k],
        first[i] != second[i],
    ensures
        outranks(second[i], first[i]),
{
    let entry = first[i];
    assert(candidates.contains(entry));
    let c = choose|c: int| 0 <= c < candidates.len() && candidates[c] == entry;
    if second.contains(entry) {
        let j = choose|j: int| 0 <= j < second.len() && second[j] == entry;
        if j < i {
            assert(outranks(first[j], first[i]));
        }
    } else {
        assert(outranks(second[i], candidates[c]));
    }
}

/// Among entries with different letters there is one that comes before all the others.
proof fn lemma_best_exists(entries: Seq<(char, u64)>) -> (best: int)
    requires
        distinct_keys(entries),
        entries.len() > 0,
    ensures
        0 <= best < entries.len(),
        forall|j: int|
            0 <= j < entries.len() && j != best ==> outranks(entries[best], #[trigger] entries[j]),
    decreases entries.len(),
{
    if entries.len() == 1 {
        0
    } else {
        let init = entries.drop_last();
        let last = entries.len() - 1;
        assert(distinct_keys(init)) by {
            assert forall|i: int, j: int| 0 <= i < j < init.len() implies (#[trigger] init[i]).0
                != (#[trigger] init[j]).0 by {
                assert(entries[i].0 != entries[j].0);
            }
        }
        let before = lemma_best_exists(init);
        assert(entries[before].0 != entries[last].0);
        if outranks(entries[last], entries[before]) {
            assert forall|j: int| 0 <= j < entries.len() && j != last implies outranks(
                entries[last],
                #[trigger] entries[j],
            ) by {
                if j != before {
                    assert(outranks(init[before], init[j]));
                }
            }
            last
        } else {
            assert forall|j: int| 0 <= j < entries.len() && j != before implies outranks(
                entries[before],
                #[trigger] entries[j],
            ) by {
                if j != last {
                    assert(outranks(init[before], init[j]));
                }
            }
            before
        }
    }
}

/// Candidates with different letters have a ranking of every width, and `ranking` is it.
pub proof fn lemma_ranking_exists(candidates: Seq<(char, u64)>, width: nat)
    requires
        distinct_keys(candidates),
    ensures
        is_ranking(candidates, width, ranking(candidates, width)),
    decreases candidates.len(),
{
    if width == 0 || candidates.len() == 0 {
        assert(is_ranking(candidates, width, Seq::empty()));
    } else {
        let best = lemma_best_exists(candidates);
        let rest = candidates.remove(best);
        assert forall|i: int| 0 <= i < rest.len() implies #[trigger] rest[i] == candidates[if i
            < best {
            i
        } else {
            i + 1
        }] by {}
        assert(distinct_keys(rest)) by {
            assert forall|i: int, j: int| 0 <= i < j < rest.len() implies (#[trigger] rest[i]).0
                != (#[trigger] rest[j]).0 by {
                let a = if i < best {
                    i
                } else {
                    i + 1
                };
                let b = if j < best {
                    j
                } else {
                    j + 1
                };
                assert(candidates[a].0 != candidates[b].0);
            }
        }
        lemma_ranking_exists(rest, (width - 1) as nat);
        let tail = ranking(rest, (width - 1) as nat);
        let chosen = seq![candidates[best]] + tail;
        assert forall|i: int| 0 <= i < chosen.len() implies candidates.contains(
            #[trigger] chosen[i],
        ) by {
            if i > 0 {
                assert(chosen[i] == tail[i - 1]);
                assert(rest.contains(tail[i - 1]));
                let k = choose|k: int| 0 <= k < rest.len() && rest[k] == tail[i - 1];
                assert(candidates[if k < best {
                    k
                } else {
                    k + 1
                }] == chosen[i]);
            }
        }
        assert forall|i: int, j: int| 0 <= i < j < chosen.len() implies outranks(
            #[trigger] chosen[i],
            #[trigger] chosen[j],
        ) by {
            assert(chosen[j] == tail[j - 1]);
            if i == 0 {
                assert(rest.contains(tail[j - 1]));
                let k = choose|k: int| 0 <= k < rest.len() && rest[k] == tail[j - 1];
                let c = if k < best {
                    k
                } else {
                    k + 1
                };
                assert(outranks(candidates[best], candidates[c]));
            } else {
                assert(chosen[i] == tail[i - 1]);
            }
        }
        assert forall|i: int, k: int|
            0 <= i < chosen.len() && 0 <= k < candidates.len() && !chosen.contains(
                candidates[k],
            ) implies outranks(#[trigger] chosen[i], #[trigger] candidates[k]) by {
            if k == best {
                assert(chosen[0] == candidates[k]);
            } else {
                let r = if k < best {
                    k
                } else {
                    k - 1
                };
                assert(rest[r] == candidates[k]);
                if tail.contains(rest[r]) {
                    let t = choose|t: int| 0 <= t < tail.len() && tail[t] == rest[r];
                    assert(chosen[t + 1] == candidates[k]);
                }
                if i == 0 {
                    assert(outranks(candidates[best], candidates[k]));
                } else {
                    assert(chosen[i] == tail[i - 1]);
                    assert(outranks(tail[i - 1], rest[r]));
                }
            }
        }
        assert(is_ranking(candidates, width, chosen));
    }
}

/// The letters that were counted in a text all have their entry in the alphabet, so the
/// truncated alphabet of what was counted is always there.
pub proof fn lemma_counted_letters_are_found(alphabet: AlphabetView, text: Seq<char>, total: u64)
    ensures
        alphabet.truncated(
            ProbabilitiesView { entries: tally(purged(alphabet, text)), total },
        ) is Some,
{
    let stream = purged(alphabet, text);
    let counted = ProbabilitiesView { entries: tally(stream), total };
    let candidates = alphabet.candidates(counted);
    let chosen = alphabet.chosen(counted);
    let accepted = |entry: (char, u64)| alphabet.has_letter(entry.0);
    lemma_tally_distinct(stream);
    lemma_first_occurrences(stream);
    assert forall|i: int| 0 <= i < candidates.len() implies tally(stream).contains(
        #[trigger] candidates[i],
    ) by {
        tally(stream).lemma_filter_contains_rev(accepted, candidates[i]);
    }
    assert(distinct_keys(candidates)) by {
        lemma_filter_keeps_distinct(tally(stream), accepted);
    }
    lemma_ranking_exists(candidates, truncation_width(alphabet.letters.len()));
    assert forall|i: int| 0 <= i < chosen.len() implies alphabet.letter_of(
        (#[trigger] chosen[i]).0,
    ) is Some by {
        assert(candidates.contains(chosen[i]));
        let c = choose|c: int| 0 <= c < candidates.len() && candidates[c] == chosen[i];
        assert(tally(stream).contains(candidates[c]));
        let t = choose|t: int| 0 <= t < tally(stream).len() && tally(stream)[t] == chosen[i];
        let letter = first_occurrences(stream)[t];
        assert(letter == chosen[i].0);
        assert(first_occurrences(stream).contains(letter));
        assert(stream.contains(letter));
        let s = choose|s: int| 0 <= s < stream.len() && stream[s] == letter;
        lemma_purged_is_canonical(alphabet, text, s);
        let ch = choose|ch: char| #[trigger]
            text.contains(ch) && alphabet.canonical(ch) == Some(stream[s]);
        lemma_find_letter(alphabet, ch);
        lemma_letter_of_exists(alphabet, alphabet.match_index(ch));
    }
}

impl AlphabetView {
    /// The entries from which a truncated alphabet is chosen: those of `probabilities` whose
    /// letter this alphabet accepts.
    pub open spec fn candidates(self, probabilities: ProbabilitiesView) -> Seq<(char, u64)> {
        probabilities.restricted_to(self).entries
    }

    /// The entries chosen for the truncated alphabet, the most frequent first.
    pub open spec fn chosen(self, probabilities: ProbabilitiesView) -> Seq<(char, u64)> {
        ranking(self.candidates(probabilities), truncation_width(self.letters.len()))
    }

    /// The truncated alphabet: the catalogue entries of the chosen letters, in the order of
    /// selection, with the truncation width as its nominal size. There is none if a chosen
    /// letter is not the canonical lower-case form of any entry.
    pub open spec fn truncated(self, probabilities: ProbabilitiesView) -> Option<AlphabetView> {
        let chosen = self.chosen(probabilities);
        if forall|i: int| 0 <= i < chosen.len() ==> self.letter_of((#[trigger] chosen[i]).0) is Some {
            Some(
                AlphabetView {
                    letters: chosen.map_values(
                        |entry: (char, u64)| self.letter_of(entry.0)->0,
                    ),
                    power: truncation_width(self.letters.len()) as int,
                },
            )
        } else {
            None
        }
    }
}

/// The `width` first of `candidates` in the order of selection, best first.
fn select(candidates: &Vec<(char, u64)>, width: usize) -> (chosen: Vec<(char, u64)>)
    requires
        distinct_keys(candidates@),
    ensures
        is_ranking(candidates@, width as nat, chosen@),
        chosen@ == ranking(candidates@, width as nat),
{
    let mut rest: Vec<(char, u64)> = Vec::new();
    let mut n: usize = 0;
    while n < candidates.len()
        invariant
            0 <= n <= candidates.len(),
            rest@ == candidates@.take(n as int),
        decreases candidates.len() - n,
    {
        rest.push(candidates[n]);
        assert(candidates@.take(n + 1) =~= candidates@.take(n as int).push(candidates@[n as int]));
        n = n + 1;
    }
    assert(candidates@.take(n as int) =~= candidates@);
    let mut chosen: Vec<(char, u64)> = Vec::new();
    while chosen.len() < width && rest.len() > 0
        invariant
            distinct_keys(rest@),
            chosen.len() <= width,
            chosen.len() + rest.len() == candidates.len(),
            forall|i: int| 0 <= i < rest.len() ==> candidates@.contains(#[trigger] rest@[i]),
            forall|i: int| 0 <= i < chosen.len() ==> candidates@.contains(#[trigger] chosen@[i]),
            forall|i: int, j: int|
                0 <= i < j < chosen.len() ==> outranks(#[trigger] chosen@[i], #[trigger] chosen@[j]),
            forall|i: int, k: int|
                0 <= i < chosen.len() && 0 <= k < rest.len() ==> outranks(
                    #[trigger] chosen@[i],
                    #[trigger] rest@[k],
                ),
            forall|k: int|
                0 <= k < candidates.len() ==> chosen@.contains(#[trigger] candidates@[k])
                    || rest@.contains(candidates@[k]),
        decreases rest.len(),
    {
        let mut best: usize = 0;
        let mut k: usize = 1;
        while k < rest.len()
            invariant
                0 <= best < k <= rest.len(),
                distinct_keys(rest@),
                forall|j: int|
                    0 <= j < k && j != best ==> outranks(rest@[best as int], #[trigger] rest@[j]),
            decreases rest.len() - k,
        {
            if comes_before(rest[k], rest[best]) {
                proof {
                    assert forall|j: int| 0 <= j < k + 1 && j != k implies outranks(
                        rest@[k as int],
                        #[trigger] rest@[j],
                    ) by {
                        if j != best {
                            assert(outranks(rest@[best as int], rest@[j]));
                        }
                    }
                }
                best = k;
            } else {
                proof {
                    assert(rest@[best as int].0 != rest@[k as int].0);
                    lemma_outranks_total(rest@[best as int], rest@[k as int]);
                }
            }
            k = k + 1;
        }
        let ghost before = rest@;
        let ghost picked = chosen@;
        let entry = rest.swap_remove(best);
        chosen.push(entry);
        proof {
            let last = before.len() - 1;
            assert forall|i: int| 0 <= i < rest.len() implies (exists|j: int|
                0 <= j < before.len() && j != best && before[j] == #[trigger] rest@[i]) by {
                if i == best {
                    assert(before[last] == rest@[i]);
                } else {
                    assert(before[i] == rest@[i]);
                }
            }
            assert(distinct_keys(rest@)) by {
                assert forall|i: int, j: int| 0 <= i < j < rest.len() implies (
                #[trigger] rest@[i]).0 != (#[trigger] rest@[j]).0 by {
                    let a = if i == best { last } else { i };
                    let b = if j == best { last } else { j };
                    assert(before[a] == rest@[i] && before[b] == rest@[j]);
                    if a < b {
                        assert(before[a].0 != before[b].0);
                    } else {
                        assert(before[b].0 != before[a].0);
                    }
                }
            }
            assert forall|i: int| 0 <= i < rest.len() implies candidates@.contains(
                #[trigger] rest@[i],
            ) by {
                let a = if i == best { last } else { i };
                assert(before[a] == rest@[i]);
            }
            assert forall|i: int| 0 <= i < chosen.len() implies candidates@.contains(
                #[trigger] chosen@[i],
            ) by {
                if i < picked.len() {
                    assert(picked[i] == chosen@[i]);
                } else {
                    assert(before[best as int] == chosen@[i]);
                }
            }
            assert forall|i: int, j: int| 0 <= i < j < chosen.len() implies outranks(
                #[trigger] chosen@[i],
                #[trigger] chosen@[j],
            ) by {
                assert(picked[i] == chosen@[i]);
                if j < picked.len() {
                    assert(picked[j] == chosen@[j]);
                } else {
                    assert(outranks(picked[i], before[best as int]));
                }
            }
            assert forall|i: int, k: int|
                0 <= i < chosen.len() && 0 <= k < rest.len() implies outranks(
                #[trigger] chosen@[i],
                #[trigger] rest@[k],
            ) by {
                let a = if k == best { last } else { k };
                assert(before[a] == rest@[k]);
                if i < picked.len() {
                    assert(outranks(picked[i], before[a]));
                } else {
                    assert(outranks(before[best as int], before[a]));
                }
            }
            assert forall|k: int| 0 <= k < candidates.len() implies chosen@.contains(
                #[trigger] candidates@[k],
            ) || rest@.contains(candidates@[k]) by {
                if picked.contains(candidates@[k]) {
                    let i = choose|i: int| 0 <= i < picked.len() && picked[i] == candidates@[k];
                    assert(chosen@[i] == candidates@[k]);
                } else {
                    assert(before.contains(candidates@[k]));
                    let j = choose|j: int| 0 <= j < before.len() && before[j] == candidates@[k];
                    if j == best {
                        assert(chosen@[picked.len() as int] == candidates@[k]);
                    } else if j == last {
                        assert(rest@[best as int] == candidates@[k]);
                    } else {
                        assert(rest@[j] == candidates@[k]);
                    }
                }
            }
        }
    }
    proof {
        assert(is_ranking(candidates@, width as nat, chosen@)) by {
            assert forall|i: int, k: int|
                0 <= i < chosen.len() && 0 <= k < candidates.len() && !chosen@.contains(
                    candidates@[k],
                ) implies outranks(#[trigger] chosen@[i], #[trigger] candidates@[k]) by {
                assert(rest@.contains(candidates@[k]));
                let j = choose|j: int| 0 <= j < rest.len() && rest@[j] == candidates@[k];
                assert(outranks(chosen@[i], rest@[j]));
            }
        }
        lemma_ranking_unique(
            candidates@,
            width as nat,
            chosen@,
            ranking(candidates@, width as nat),
        );
    }
    chosen
}

impl Alphabet {
    /// Derives the truncated alphabet: the letters that `probabilities` lists and this
    /// alphabet accepts are ranked by probability, the higher first and of two equal ones the
    /// smaller letter first; the first `min(letters / 3, 15)` of them are chosen, and the
    /// result holds a copy of the catalogue entry of each, in that order. Its nominal size is
    /// that width, whether or not so many letters were there to choose from.
    ///
    /// Fails with `LetterNotFound` if a chosen letter is not the canonical lower-case form of
    /// any entry.
    pub fn create_truncated(&self, probabilities: &Probabilities) -> (result: Result<
        Alphabet,
        StatsError,
    >)
        ensures
            is_ranking(
                self@.candidates(probabilities@),
                truncation_width(self@.letters.len()),
                self@.chosen(probabilities@),
            ),
            match result {
                Ok(truncated) => self@.truncated(probabilities@) == Some(truncated@),
                Err(error) => self@.truncated(probabilities@) is None && error
                    == StatsError::LetterNotFound,
            },
    {
        let restricted = probabilities.restricted_to(self);
        let third = self.letters.len() / 3;
        let width: usize = if third < 15 {
            third
        } else {
            15
        };
        let chosen = select(restricted.entries(), width);
        let ghost copy = |entry: (char, u64)| self@.letter_of(entry.0)->0;
        let mut letters: Vec<AlphabetLetter> = Vec::new();
        let mut i: usize = 0;
        while i < chosen.len()
            invariant
                0 <= i <= chosen.len(),
                chosen@ == self@.chosen(probabilities@),
                is_ranking(
                    self@.candidates(probabilities@),
                    truncation_width(self@.letters.len()),
                    chosen@,
                ),
                copy == |entry: (char, u64)| self@.letter_of(entry.0)->0,
                forall|k: int| 0 <= k < i ==> self@.letter_of((#[trigger] chosen@[k]).0) is Some,
                letters@.map_values(|letter: AlphabetLetter| letter@) == chosen@.take(
                    i as int,
                ).map_values(copy),
            decreases chosen.len() - i,
        {
            match self.letter_of(chosen[i].0) {
                Some(letter) => {
                    let ghost before = letters@;
                    letters.push(letter.clone());
                    proof {
                        assert(chosen@.take(i + 1) =~= chosen@.take(i as int).push(
                            chosen@[i as int],
                        ));
                        assert(letters@.map_values(|letter: AlphabetLetter| letter@)
                            =~= before.map_values(|letter: AlphabetLetter| letter@).push(
                            letter@,
                        ));
                        assert(chosen@.take(i + 1).map_values(copy) =~= chosen@.take(
                            i as int,
                        ).map_values(copy).push(copy(chosen@[i as int])));
                    }
                },
                None => {
                    return Err(StatsError::LetterNotFound);
                },
            }
            i = i + 1;
        }
        assert(chosen@.take(i as int) =~= chosen@);
        Ok(Alphabet { letters, power: width as i32 })
    }
}

} // verus!
