//! The textual definition of an alphabet: one letter per line, written as four fields
//! separated by commas, `UPPER,lower,UPPERVARIANTS,lowervariants`.

use crate::alphabet::{Alphabet, AlphabetLetter, LetterView};
use crate::strings::push_char;
use vstd::prelude::*;

verus! {

/// The fields of a line: the stretches of characters between its commas. A line without a
/// comma is one field, and a line with `n` commas has `n + 1` fields, empty ones included.
pub open spec fn fields(line: Seq<char>) -> Seq<Seq<char>>
    decreases line.len(),
{
    if line.len() == 0 {
        seq![Seq::empty()]
    } else {
        let before = fields(line.drop_last());
        if line.last() == ',' {
            before.push(Seq::empty())
        } else {
            before.update(before.len() - 1, before.last().push(line.last()))
        }
    }
}

/// The letter that a line defines. A line defines one if it has exactly four fields of which
/// the first two are not empty: the canonical forms are the first characters of those two,
/// and the last two fields are the variants.
pub open spec fn parsed_letter(line: Seq<char>) -> Option<LetterView> {
    let parts = fields(line);
    if parts.len() == 4 && parts[0].len() > 0 && parts[1].len() > 0 {
        Some(
            LetterView {
                upper: parts[0][0],
                lower: parts[1][0],
                uppers: parts[2],
                lowers: parts[3],
            },
        )
    } else {
        None
    }
}

/// The letters that the lines define, in the order of the lines; the lines that define none
/// are passed over.
pub open spec fn parsed_letters(lines: Seq<Seq<char>>) -> Seq<LetterView> {
    lines.filter_map(|line: Seq<char>| parsed_letter(line))
}

/// Every line has a field, and what one more character does to the fields: a comma opens a
/// new, empty field, and any other character joins the last field.
pub proof fn lemma_fields_push(line: Seq<char>, ch: char)
    ensures
        fields(line).len() >= 1,
        fields(line.push(ch)) == if ch == ',' {
            fields(line).push(Seq::empty())
        } else {
            fields(line).update(fields(line).len() - 1, fields(line).last().push(ch))
        },
    decreases line.len(),
{
    if line.len() > 0 {
        lemma_fields_push(line.drop_last(), line.last());
    }
    assert(line.push(ch).drop_last() =~= line);
}

/// No field holds a comma, and the fields with a comma between each two make up the line.
pub proof fn lemma_fields_join(line: Seq<char>)
    ensures
        forall|i: int, j: int|
            0 <= i < fields(line).len() && 0 <= j < fields(line)[i].len() ==> fields(
                line,
            )[i][j] != ',',
        joined(fields(line)) == line,
    decreases line.len(),
{
    if line.len() > 0 {
        let init = line.drop_last();
        let before = fields(init);
        lemma_fields_join(init);
        lemma_fields_push(init, line.last());
        assert(init.push(line.last()) =~= line);
        if line.last() == ',' {
            assert(before.push(Seq::empty()).drop_last() =~= before);
        } else {
            let grown = before.update(before.len() - 1, before.last().push(line.last()));
            assert(grown.drop_last() =~= before.drop_last());
            assert(joined(grown) =~= joined(before).push(line.last()));
        }
    } else {
        assert(fields(line).drop_last().len() == 0);
    }
}

/// The first lines define no more letters than all the lines.
pub proof fn lemma_parsed_letters_prefix(lines: Seq<Seq<char>>, n: int)
    requires
        0 <= n <= lines.len(),
    ensures
        parsed_letters(lines.take(n)).len() <= parsed_letters(lines).len(),
    decreases lines.len(),
{
    if n == lines.len() {
        assert(lines.take(n) =~= lines);
    } else {
        lemma_parsed_letters_prefix(lines.drop_last(), n);
        assert(lines.drop_last().take(n) =~= lines.take(n));
    }
}

/// The fields, one after the other, with a comma between each two.
pub open spec fn joined(parts: Seq<Seq<char>>) -> Seq<char>
    decreases parts.len(),
{
    if parts.len() == 0 {
        Seq::empty()
    } else if parts.len() == 1 {
        parts[0]
    } else {
        joined(parts.drop_last()).push(',') + parts.last()
    }
}

/// Reads the letter that `line` defines, if it defines one.
pub fn parse_letter(line: &str) -> (parsed: Option<AlphabetLetter>)
    ensures
        match parsed {
            Some(letter) => parsed_letter(line@) == Some(letter@),
            None => parsed_letter(line@) is None,
        },
{
    let mut commas: usize = 0;
    let mut upper: Option<char> = None;
    let mut lower: Option<char> = None;
    let mut uppers = String::new();
    let mut lowers = String::new();
    proof {
        assert(line@.take(0) =~= Seq::<char>::empty());
    }
    for ch in iter: line.chars()
        invariant
            iter.seq() == line@,
            ({
                let parts = fields(line@.take(iter.index()));
                &&& parts.len() >= 1
                &&& commas <= 4
                &&& commas < 4 ==> parts.len() == commas + 1
                &&& commas == 4 ==> parts.len() >= 5
                &&& upper == if parts[0].len() > 0 {
                    Some(parts[0][0])
                } else {
                    None
                }
                &&& lower == if parts.len() > 1 && parts[1].len() > 0 {
                    Some(parts[1][0])
                } else {
                    None
                }
                &&& uppers@ == if parts.len() > 2 {
                    parts[2]
                } else {
                    Seq::empty()
                }
                &&& lowers@ == if parts.len() > 3 {
                    parts[3]
                } else {
                    Seq::empty()
                }
            }),
    {
        proof {
            assert(line@.take(iter.index() + 1) =~= line@.take(iter.index()).push(ch));
            lemma_fields_push(line@.take(iter.index()), ch);
        }
        if ch == ',' {
            if commas < 4 {
                commas = commas + 1;
            }
        } else if commas == 0 {
            if upper.is_none() {
                upper = Some(ch);
            }
        } else if commas == 1 {
            if lower.is_none() {
                lower = Some(ch);
            }
        } else if commas == 2 {
            push_char(&mut uppers, ch);
        } else if commas == 3 {
            push_char(&mut lowers, ch);
        }
    }
    proof {
        assert(line@.take(line@.len() as int) =~= line@);
    }
    if commas != 3 {
        return None;
    }
    match (upper, lower) {
        (Some(upper), Some(lower)) => Some(AlphabetLetter { lowers, uppers, upper, lower }),
        _ => None,
    }
}

impl Alphabet {
    /// Appends the letters that the lines of `source` define, in the order of the lines, and
    /// raises the nominal size by one for each. Lines that define no letter are passed over.
    pub fn load_letters(&mut self, source: &Vec<String>)
        requires
            old(self)@.power + parsed_letters(source@.map_values(|line: String| line@)).len()
                <= i32::MAX,
        ensures
            final(self)@.letters == old(self)@.letters + parsed_letters(
                source@.map_values(|line: String| line@),
            ),
            final(self)@.power == old(self)@.power + parsed_letters(
                source@.map_values(|line: String| line@),
            ).len(),
    {
        let ghost lines = source@.map_values(|line: String| line@);
        let ghost parse = |line: Seq<char>| parsed_letter(line);
        let mut i: usize = 0;
        while i < source.len()
            invariant
                0 <= i <= source.len(),
                lines == source@.map_values(|line: String| line@),
                parse == |line: Seq<char>| parsed_letter(line),
                old(self)@.power + lines.filter_map(parse).len() <= i32::MAX,
                self@.letters == old(self)@.letters + lines.take(i as int).filter_map(parse),
                self@.power == old(self)@.power + lines.take(i as int).filter_map(parse).len(),
            decreases source.len() - i,
        {
            proof {
                lines.lemma_filter_map_take_succ(parse, i as int);
                lemma_parsed_letters_prefix(lines, i + 1);
            }
            let ghost before = self@.letters;
            if let Some(letter) = parse_letter(source[i].as_str()) {
                self.letters.push(letter);
                self.power = self.power + 1;
                assert(self@.letters =~= before.push(letter@));
            }
            i = i + 1;
        }
        assert(lines.take(i as int) =~= lines);
    }
}

} // verus!
