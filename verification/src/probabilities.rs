//! Empirical letter probabilities, held exactly: each letter has a number of occurrences, and
//! its probability is that number over a total shared by all letters.

use crate::alphabet::{Alphabet, AlphabetView};
use crate::text_processor::{lemma_purged_push, purged};
use vstd::prelude::*;

verus! {

/// A mapping from canonical letters to probabilities.
///
/// The probability of a letter is `occurrences / total`. No letter is listed twice and the
/// occurrences add up to at most the total, so the probabilities lie between 0 and 1 and add
/// up to at most 1.
#[derive(Debug)]
pub struct Probabilities {
    entries: Vec<(char, u64)>,
    total: u64,
}

/// Mathematical model of [`Probabilities`].
pub struct ProbabilitiesView {
    /// Each letter with its number of occurrences.
    pub entries: Seq<(char, u64)>,
    /// The denominator of every probability.
    pub total: u64,
}

/// The occurrences of all entries together.
pub open spec fn sum_counts(entries: Seq<(char, u64)>) -> nat
    decreases entries.len(),
{
    if entries.len() == 0 {
        0
    } else {
        sum_counts(entries.drop_last()) + entries.last().1 as nat
    }
}

/// No letter is listed twice.
pub open spec fn distinct_keys(entries: Seq<(char, u64)>) -> bool {
    forall|i: int, j: int|
        0 <= i < j < entries.len() ==> (#[trigger] entries[i]).0 != (#[trigger] entries[j]).0
}

/// The letters of `text` in the order in which each occurs first.
pub open spec fn first_occurrences(text: Seq<char>) -> Seq<char>
    decreases text.len(),
{
    if text.len() == 0 {
        Seq::empty()
    } else {
        let before = first_occurrences(text.drop_last());
        if before.contains(text.last()) {
            before
        } else {
            before.push(text.last())
        }
    }
}

/// Each letter of `text` once, in order of first occurrence, with the number of times it
/// occurs in `text`.
pub open spec fn tally(text: Seq<char>) -> Seq<(char, u64)> {
    first_occurrences(text).map_values(|ch: char| (ch, text.to_multiset().count(ch) as u64))
}

impl ProbabilitiesView {
    /// No letter is listed twice, and the occurrences do not exceed the total.
    pub open spec fn wf(self) -> bool {
        distinct_keys(self.entries) && sum_counts(self.entries) <= self.total
    }

    /// `ch` is listed.
    pub open spec fn has_key(self, ch: char) -> bool {
        exists|i: int| 0 <= i < self.entries.len() && (#[trigger] self.entries[i]).0 == ch
    }

    /// The occurrences of `ch`: 0 for a letter that is not listed.
    pub open spec fn count(self, ch: char) -> nat {
        if self.has_key(ch) {
            self.entries[choose|i: int|
                0 <= i < self.entries.len() && (#[trigger] self.entries[i]).0 == ch].1 as nat
        } else {
            0
        }
    }

    /// The entries whose letter the alphabet accepts, in their order.
    pub open spec fn restricted_to(self, alphabet: AlphabetView) -> ProbabilitiesView {
        ProbabilitiesView {
            entries: self.entries.filter(|entry: (char, u64)| alphabet.has_letter(entry.0)),
            total: self.total,
        }
    }

    /// Letter `i` has probability 1 and every other letter probability 0.
    pub open spec fn is_certain(self, i: int) -> bool {
        &&& 0 <= i < self.entries.len()
        &&& self.entries[i].1 == self.total
        &&& forall|j: int|
            0 <= j < self.entries.len() && j != i ==> (#[trigger] self.entries[j]).1 == 0
    }

    /// Every listed letter has probability 0 or 1.
    pub open spec fn is_degenerate(self) -> bool {
        forall|i: int|
            0 <= i < self.entries.len() ==> (#[trigger] self.entries[i]).1 == 0
                || self.entries[i].1 == self.total
    }
}

/// With no letter listed twice, the occurrences of a listed letter are those of its entry.
pub proof fn lemma_count_of_entry(view: ProbabilitiesView, i: int)
    requires
        distinct_keys(view.entries),
        0 <= i < view.entries.len(),
    ensures
        view.has_key(view.entries[i].0),
        view.count(view.entries[i].0) == view.entries[i].1,
{
    let ch = view.entries[i].0;
    let k = choose|k: int| 0 <= k < view.entries.len() && (#[trigger] view.entries[k]).0 == ch;
    if k < i {
        assert(view.entries[k].0 != view.entries[i].0);
    } else if i < k {
        assert(view.entries[i].0 != view.entries[k].0);
    }
}

/// The occurrences of entries listed after others add to theirs.
pub proof fn lemma_sum_counts_push(entries: Seq<(char, u64)>, entry: (char, u64))
    ensures
        sum_counts(entries.push(entry)) == sum_counts(entries) + entry.1,
{
    assert(entries.push(entry).drop_last() =~= entries);
}

/// Changing the occurrences of one entry changes the sum by as much.
pub proof fn lemma_sum_counts_update(entries: Seq<(char, u64)>, i: int, entry: (char, u64))
    requires
        0 <= i < entries.len(),
    ensures
        sum_counts(entries.update(i, entry)) == sum_counts(entries) - entries[i].1 + entry.1,
    decreases entries.len(),
{
    let updated = entries.update(i, entry);
    if i == entries.len() - 1 {
        assert(updated.drop_last() =~= entries.drop_last());
    } else {
        lemma_sum_counts_update(entries.drop_last(), i, entry);
        assert(updated.drop_last() =~= entries.drop_last().update(i, entry));
    }
}

/// The occurrences of the first `n` entries do not exceed those of all.
pub proof fn lemma_sum_counts_prefix(entries: Seq<(char, u64)>, n: int)
    requires
        0 <= n <= entries.len(),
    ensures
        sum_counts(entries.take(n)) <= sum_counts(entries),
    decreases entries.len(),
{
    if n == entries.len() {
        assert(entries.take(n) =~= entries);
    } else {
        lemma_sum_counts_prefix(entries.drop_last(), n);
        assert(entries.drop_last().take(n) =~= entries.take(n));
    }
}

/// Entries picked out of entries with different letters have different letters.
pub proof fn lemma_filter_keeps_distinct(
    entries: Seq<(char, u64)>,
    kept: spec_fn((char, u64)) -> bool,
)
    requires
        distinct_keys(entries),
    ensures
        distinct_keys(entries.filter(kept)),
    decreases entries.len(),
{
    reveal(Seq::filter);
    if entries.len() > 0 {
        let init = entries.drop_last();
        assert(distinct_keys(init)) by {
            assert forall|i: int, j: int| 0 <= i < j < init.len() implies (#[trigger] init[i]).0
                != (#[trigger] init[j]).0 by {
                assert(entries[i].0 != entries[j].0);
            }
        }
        lemma_filter_keeps_distinct(init, kept);
        if kept(entries.last()) {
            let picked = init.filter(kept);
            assert forall|i: int| 0 <= i < picked.len() implies (#[trigger] picked[i]).0
                != entries.last().0 by {
                init.lemma_filter_contains_rev(kept, picked[i]);
                let k = choose|k: int| 0 <= k < init.len() && init[k] == picked[i];
                assert(entries[k].0 != entries[entries.len() - 1].0);
            }
        }
    }
}

/// A letter is among the first occurrences of a text exactly if it is in the text, and none
/// is among them twice.
pub proof fn lemma_first_occurrences(text: Seq<char>)
    ensures
        first_occurrences(text).no_duplicates(),
        forall|ch: char| first_occurrences(text).contains(ch) <==> text.contains(ch),
    decreases text.len(),
{
    if text.len() > 0 {
        let init = text.drop_last();
        let last = text.last();
        lemma_first_occurrences(init);
        let before = first_occurrences(init);
        assert forall|ch: char| first_occurrences(text).contains(ch) <==> text.contains(
            ch,
        ) by {
            if text.contains(ch) {
                let i = choose|i: int| 0 <= i < text.len() && text[i] == ch;
                if i < text.len() - 1 {
                    assert(init[i] == ch);
                    assert(init.contains(ch));
                    assert(before.contains(ch));
                    let k = choose|k: int| 0 <= k < before.len() && before[k] == ch;
                    assert(first_occurrences(text)[k] == ch);
                } else if !before.contains(last) {
                    assert(before.push(last)[before.len() as int] == ch);
                }
            }
            if first_occurrences(text).contains(ch) {
                let k = choose|k: int|
                    0 <= k < first_occurrences(text).len() && first_occurrences(text)[k] == ch;
                if k < before.len() {
                    assert(before[k] == ch);
                    assert(before.contains(ch));
                    assert(init.contains(ch));
                    let i = choose|i: int| 0 <= i < init.len() && init[i] == ch;
                    assert(text[i] == ch);
                } else {
                    assert(text[text.len() - 1] == ch);
                }
            }
        }
    }
}

/// No entry has more occurrences than all entries together.
pub proof fn lemma_sum_counts_bounds(entries: Seq<(char, u64)>, i: int)
    requires
        0 <= i < entries.len(),
    ensures
        entries[i].1 <= sum_counts(entries),
    decreases entries.len(),
{
    if i < entries.len() - 1 {
        lemma_sum_counts_bounds(entries.drop_last(), i);
    }
}

/// Where the probabilities add up to 1, every letter has probability 0 or 1 exactly if one
/// letter has probability 1 and all others have probability 0.
pub proof fn lemma_degenerate_is_one_certain_letter(view: ProbabilitiesView)
    requires
        sum_counts(view.entries) == view.total,
        view.total > 0,
    ensures
        view.is_degenerate() <==> exists|i: int| view.is_certain(i),
    decreases view.entries.len(),
{
    if view.is_degenerate() {
        let last = view.entries.len() - 1;
        let init = ProbabilitiesView { entries: view.entries.drop_last(), total: view.total };
        assert(view.entries.len() > 0);
        assert(init.is_degenerate()) by {
            assert forall|k: int| 0 <= k < init.entries.len() implies (
            #[trigger] init.entries[k]).1 == 0 || init.entries[k].1 == init.total by {
                assert(view.entries[k].1 == 0 || view.entries[k].1 == view.total);
            }
        }
        if view.entries[last].1 == 0 {
            lemma_degenerate_is_one_certain_letter(init);
            let i = choose|i: int| init.is_certain(i);
            assert(view.is_certain(i)) by {
                assert forall|j: int| 0 <= j < view.entries.len() && j != i implies (
                #[trigger] view.entries[j]).1 == 0 by {
                    if j < last {
                        assert(init.entries[j].1 == 0);
                    }
                }
            }
        } else {
            assert(view.is_certain(last)) by {
                assert forall|j: int| 0 <= j < view.entries.len() && j != last implies (
                #[trigger] view.entries[j]).1 == 0 by {
                    lemma_sum_counts_bounds(init.entries, j);
                }
            }
        }
    }
    if exists|i: int| view.is_certain(i) {
        let i = choose|i: int| view.is_certain(i);
        assert forall|k: int| 0 <= k < view.entries.len() implies (#[trigger] view.entries[k]).1
            == 0 || view.entries[k].1 == view.total by {
            if k != i {
                assert(view.entries[k].1 == 0);
            }
        }
    }
}

impl View for Probabilities {
    type V = ProbabilitiesView;

    closed spec fn view(&self) -> ProbabilitiesView {
        ProbabilitiesView { entries: self.entries@, total: self.total }
    }
}

impl Probabilities {
    #[verifier::type_invariant]
    spec fn valid(&self) -> bool {
        self@.wf()
    }

    /// The mapping with the given entries and total, if no letter is listed twice and the
    /// occurrences add up to at most `total`.
    pub fn from_counts(entries: Vec<(char, u64)>, total: u64) -> (made: Option<Probabilities>)
        ensures
            made is Some <==> distinct_keys(entries@) && sum_counts(entries@) <= total,
            made matches Some(probabilities) ==> probabilities@ == (ProbabilitiesView {
                entries: entries@,
                total,
            }),
    {
        let mut sum: u64 = 0;
        let mut i: usize = 0;
        while i < entries.len()
            invariant
                0 <= i <= entries.len(),
                distinct_keys(entries@.take(i as int)),
                sum == sum_counts(entries@.take(i as int)),
                sum <= total,
            decreases entries.len() - i,
        {
            let (key, count) = entries[i];
            proof {
                assert(entries@.take(i + 1) =~= entries@.take(i as int).push(entries@[i as int]));
                lemma_sum_counts_push(entries@.take(i as int), entries@[i as int]);
                lemma_sum_counts_prefix(entries@, i + 1);
            }
            if count > total - sum {
                return None;
            }
            let mut j: usize = 0;
            while j < i
                invariant
                    0 <= j <= i < entries.len(),
                    key == entries@[i as int].0,
                    forall|k: int| 0 <= k < j ==> (#[trigger] entries@[k]).0 != key,
                decreases i - j,
            {
                if entries[j].0 == key {
                    return None;
                }
                j = j + 1;
            }
            sum = sum + count;
            i = i + 1;
        }
        assert(entries@.take(i as int) =~= entries@);
        Some(Probabilities { entries, total })
    }

    /// Each letter with its number of occurrences.
    pub fn entries(&self) -> (entries: &Vec<(char, u64)>)
        ensures
            entries@ == self@.entries,
            self@.wf(),
    {
        proof {
            use_type_invariant(self);
        }
        &self.entries
    }

    /// The denominator of every probability.
    pub fn total(&self) -> (total: u64)
        ensures
            total == self@.total,
            self@.wf(),
    {
        proof {
            use_type_invariant(self);
        }
        self.total
    }

    /// The numerator of the probability of `ch`: its occurrences, 0 for a letter that is not
    /// listed.
    pub fn count(&self, ch: char) -> (count: u64)
        ensures
            count == self@.count(ch),
    {
        proof {
            use_type_invariant(self);
        }
        let mut i: usize = 0;
        while i < self.entries.len()
            invariant
                0 <= i <= self.entries.len(),
                distinct_keys(self@.entries),
                self@.entries == self.entries@,
                forall|k: int| 0 <= k < i ==> (#[trigger] self.entries@[k]).0 != ch,
            decreases self.entries.len() - i,
        {
            if self.entries[i].0 == ch {
                proof {
                    lemma_count_of_entry(self@, i as int);
                }
                return self.entries[i].1;
            }
            i = i + 1;
        }
        0
    }

    /// Whether every listed letter has probability 0 or 1.
    pub fn is_degenerate(&self) -> (degenerate: bool)
        ensures
            degenerate == self@.is_degenerate(),
    {
        let mut i: usize = 0;
        while i < self.entries.len()
            invariant
                0 <= i <= self.entries.len(),
                self@.entries == self.entries@,
                self@.total == self.total,
                forall|k: int|
                    0 <= k < i ==> (#[trigger] self.entries@[k]).1 == 0 || self.entries@[k].1
                        == self.total,
            decreases self.entries.len() - i,
        {
            let count = self.entries[i].1;
            if count != 0 && count != self.total {
                return false;
            }
            i = i + 1;
        }
        true
    }

    /// The mapping without the letters that `alphabet` does not accept; the probabilities of
    /// the others are unchanged.
    pub fn restricted_to(&self, alphabet: &Alphabet) -> (restricted: Probabilities)
        ensures
            restricted@ == self@.restricted_to(alphabet@),
            restricted@.wf(),
    {
        proof {
            use_type_invariant(self);
        }
        let ghost accepted = |entry: (char, u64)| alphabet@.has_letter(entry.0);
        let mut kept: Vec<(char, u64)> = Vec::new();
        let mut i: usize = 0;
        while i < self.entries.len()
            invariant
                0 <= i <= self.entries.len(),
                self@.wf(),
                self@.entries == self.entries@,
                accepted == |entry: (char, u64)| alphabet@.has_letter(entry.0),
                kept@ == self.entries@.take(i as int).filter(accepted),
                distinct_keys(kept@),
                forall|k: int|
                    0 <= k < kept.len() ==> exists|j: int|
                        0 <= j < i && self.entries@[j] == #[trigger] kept@[k],
                sum_counts(kept@) <= sum_counts(self.entries@.take(i as int)),
            decreases self.entries.len() - i,
        {
            let entry = self.entries[i];
            proof {
                let before = self.entries@.take(i as int);
                assert(self.entries@.take(i + 1) =~= before.push(entry));
                before.lemma_filter_push(entry, accepted);
                lemma_sum_counts_push(before, entry);
            }
            if alphabet.has_letter(&entry.0) {
                proof {
                    lemma_sum_counts_push(kept@, entry);
                    assert forall|k: int| 0 <= k < kept.len() implies (#[trigger] kept@[k]).0
                        != entry.0 by {
                        let j = choose|j: int| 0 <= j < i && self.entries@[j] == kept@[k];
                        assert(self.entries@[j].0 != self.entries@[i as int].0);
                    }
                }
                kept.push(entry);
                assert(kept@[kept.len() - 1] == self.entries@[i as int]);
            }
            i = i + 1;
        }
        proof {
            assert(self.entries@.take(i as int) =~= self.entries@);
        }
        Probabilities { entries: kept, total: self.total }
    }
}

/// What one more character does to a tally: the entry of a letter already listed counts one
/// more, and a letter not yet listed is added at the end with one occurrence.
pub proof fn lemma_tally_push(text: Seq<char>, ch: char)
    requires
        text.len() < u64::MAX,
    ensures
        forall|i: int|
            0 <= i < tally(text).len() && (#[trigger] tally(text)[i]).0 == ch ==> tally(
                text.push(ch),
            ) == tally(text).update(i, (ch, (tally(text)[i].1 + 1) as u64)),
        (forall|i: int| 0 <= i < tally(text).len() ==> (#[trigger] tally(text)[i]).0 != ch)
            ==> tally(text.push(ch)) == tally(text).push((ch, 1u64)),
{
    broadcast use vstd::multiset::group_multiset_axioms;

    let longer = text.push(ch);
    let before = first_occurrences(text);
    lemma_first_occurrences(text);
    assert(longer.drop_last() =~= text);
    assert(longer.last() == ch);
    vstd::seq_lib::to_multiset_build(text, ch);
    vstd::seq_lib::to_multiset_len(text);
    vstd::seq_lib::to_multiset_len(longer);
    assert forall|c: char| longer.to_multiset().count(c) <= longer.len() by {
        vstd::multiset::axiom_count_le_len(longer.to_multiset(), c);
    }
    assert forall|i: int| 0 <= i < tally(text).len() && (#[trigger] tally(text)[i]).0
        == ch implies tally(longer) == tally(text).update(
        i,
        (ch, (tally(text)[i].1 + 1) as u64),
    ) by {
        assert(before[i] == ch);
        assert(before.contains(ch));
        assert(first_occurrences(longer) == before);
        assert forall|k: int| 0 <= k < before.len() && k != i implies before[k] != ch by {
            assert(before[k] != before[i]);
        }
        assert(tally(longer) =~= tally(text).update(i, (ch, (tally(text)[i].1 + 1) as u64)));
    }
    if forall|i: int| 0 <= i < tally(text).len() ==> (#[trigger] tally(text)[i]).0 != ch {
        if before.contains(ch) {
            let k = choose|k: int| 0 <= k < before.len() && before[k] == ch;
            assert(tally(text)[k].0 == ch);
        }
        assert(!text.contains(ch));
        vstd::seq_lib::to_multiset_contains(text, ch);
        assert(first_occurrences(longer) == before.push(ch));
        assert forall|k: int| 0 <= k < before.len() implies before[k] != ch by {
            assert(tally(text)[k].0 != ch);
        }
        assert(tally(longer) =~= tally(text).push((ch, 1u64)));
    }
}

/// A tally lists no letter twice.
pub proof fn lemma_tally_distinct(text: Seq<char>)
    ensures
        distinct_keys(tally(text)),
{
    let letters = first_occurrences(text);
    lemma_first_occurrences(text);
    assert forall|i: int, j: int| 0 <= i < j < tally(text).len() implies (#[trigger] tally(
        text,
    )[i]).0 != (#[trigger] tally(text)[j]).0 by {
        assert(letters[i] != letters[j]);
    }
}

/// A tally gives each letter the number of times it occurs in the text, and lists the letters
/// that occur and no others.
pub proof fn lemma_tally_counts(text: Seq<char>, total: u64, ch: char)
    requires
        text.len() <= u64::MAX,
    ensures
        (ProbabilitiesView { entries: tally(text), total }).has_key(ch) <==> text.contains(ch),
        (ProbabilitiesView { entries: tally(text), total }).count(ch) == text.to_multiset().count(
            ch,
        ),
{
    let view = ProbabilitiesView { entries: tally(text), total };
    let letters = first_occurrences(text);
    lemma_first_occurrences(text);
    lemma_tally_distinct(text);
    vstd::seq_lib::to_multiset_contains(text, ch);
    vstd::seq_lib::to_multiset_len(text);
    vstd::multiset::axiom_count_le_len(text.to_multiset(), ch);
    if text.contains(ch) {
        assert(letters.contains(ch));
        let k = choose|k: int| 0 <= k < letters.len() && letters[k] == ch;
        assert(tally(text)[k].0 == ch);
        lemma_count_of_entry(view, k);
    } else {
        if view.has_key(ch) {
            let k = choose|k: int| 0 <= k < view.entries.len() && (#[trigger] view.entries[k]).0
                == ch;
            assert(letters[k] == ch);
            assert(letters.contains(ch));
        }
    }
}

impl Alphabet {
    /// Counts how often each canonical letter occurs in `source` once it is purged, that is,
    /// how many characters of `source` fold to it. The total is the number of characters that
    /// fold to any letter, and the letters are listed in order of first occurrence.
    ///
    /// A source without any such character gives the empty mapping with total 0.
    pub fn count_probabilities(&self, source: &str) -> (probabilities: Probabilities)
        ensures
            probabilities@.entries == tally(purged(self@, source@)),
            probabilities@.total == purged(self@, source@).len(),
            probabilities@.wf(),
            sum_counts(probabilities@.entries) == probabilities@.total,
            forall|ch: char|
                probabilities@.count(ch) == purged(self@, source@).to_multiset().count(ch),
    {
        let length = source.unicode_len();
        let mut entries: Vec<(char, u64)> = Vec::new();
        let mut total: u64 = 0;
        for ch in iter: source.chars()
            invariant
                iter.seq() == source@,
                source@.len() == length,
                entries@ == tally(purged(self@, source@.take(iter.index()))),
                total == purged(self@, source@.take(iter.index())).len(),
                total == sum_counts(entries@),
                total <= iter.index(),
        {
            let ghost seen = purged(self@, source@.take(iter.index()));
            proof {
                assert(source@.take(iter.index() + 1) =~= source@.take(iter.index()).push(ch));
                lemma_purged_push(self@, source@.take(iter.index()), ch);
            }
            if let Some(letter) = self.find_letter(&ch) {
                let key = letter.lower;
                proof {
                    lemma_tally_push(seen, key);
                }
                let mut i: usize = 0;
                while i < entries.len() && entries[i].0 != key
                    invariant
                        0 <= i <= entries.len(),
                        forall|k: int| 0 <= k < i ==> (#[trigger] entries@[k]).0 != key,
                    decreases entries.len() - i,
                {
                    i = i + 1;
                }
                if i < entries.len() {
                    let count = entries[i].1;
                    proof {
                        lemma_sum_counts_update(entries@, i as int, (key, (count + 1) as u64));
                        vstd::multiset::axiom_count_le_len(seen.to_multiset(), key);
                        vstd::seq_lib::to_multiset_len(seen);
                        lemma_first_occurrences(seen);
                    }
                    entries.set(i, (key, count + 1));
                } else {
                    proof {
                        lemma_sum_counts_push(entries@, (key, 1u64));
                    }
                    entries.push((key, 1));
                }
                total = total + 1;
            }
        }
        proof {
            assert(source@.take(source@.len() as int) =~= source@);
            assert forall|ch: char| (ProbabilitiesView { entries: entries@, total }).count(ch)
                == purged(self@, source@).to_multiset().count(ch) by {
                lemma_tally_counts(purged(self@, source@), total, ch);
            }
            lemma_tally_distinct(purged(self@, source@));
        }
        Probabilities { entries, total }
    }
}

} // verus!
