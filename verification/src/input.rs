//! What a caller supplies for one puzzle, and the rules by which typed
//! answers become that.

use vstd::prelude::*;

use crate::difficulty::Difficulty;
use crate::text::{chars_of, text_between, trim_of, trimmed_bounds};
use crate::word::{to_upper, upper_of};

verus! {

/// The title, difficulty, grid size and words of a puzzle to generate.
#[derive(Debug, Clone)]
pub struct PuzzleInput {
    pub title: String,
    pub difficulty: Difficulty,
    pub grid_size: usize,
    pub words: Vec<String>,
}

/// Why typed answers do not make a puzzle.
#[derive(Debug, Clone, Copy, PartialEq, Eq, Structural)]
pub enum InputError {
    /// No word was given.
    NoWords,
}

/// Whether two texts are equal when ASCII letters are compared without
/// regard to case.
pub open spec fn same_ignoring_ascii_case(a: Seq<char>, b: Seq<char>) -> bool {
    &&& a.len() == b.len()
    &&& forall|i: int| 0 <= i < a.len() ==> upper_of(#[trigger] a[i]) == upper_of(b[i])
}

/// Whether a line ends the list of words: it is blank, or it is the word
/// `FIM` in any case.
pub open spec fn ends_words(line: Seq<char>) -> bool {
    let answer = trim_of(line);
    answer.len() == 0 || same_ignoring_ascii_case(answer, seq!['F', 'I', 'M'])
}

/// The pieces of a text between its commas; a text with `n` commas has
/// `n + 1` pieces.
pub open spec fn pieces(text: Seq<char>) -> Seq<Seq<char>>
    decreases text.len(),
{
    if text.len() == 0 {
        seq![Seq::empty()]
    } else {
        let before = pieces(text.drop_last());
        if text.last() == ',' {
            before.push(Seq::empty())
        } else {
            before.drop_last().push(before.last().push(text.last()))
        }
    }
}

/// The given pieces, each trimmed, without those that are blank.
pub open spec fn kept_words(parts: Seq<Seq<char>>) -> Seq<Seq<char>>
    decreases parts.len(),
{
    if parts.len() == 0 {
        Seq::empty()
    } else {
        let word = trim_of(parts.last());
        let before = kept_words(parts.drop_last());
        if word.len() > 0 {
            before.push(word)
        } else {
            before
        }
    }
}

/// The words that a line gives: the line trimmed, or, if that holds a
/// comma, its pieces between the commas, trimmed, without the blank ones.
pub open spec fn words_of_line(line: Seq<char>) -> Seq<Seq<char>> {
    let answer = trim_of(line);
    if answer.contains(',') {
        kept_words(pieces(answer))
    } else if answer.len() > 0 {
        seq![answer]
    } else {
        Seq::empty()
    }
}

/// The texts of a list of strings.
pub open spec fn texts_of(words: Seq<String>) -> Seq<Seq<char>> {
    words.map_values(|w: String| w@)
}

impl PuzzleInput {
    /// The difficulty chosen by an answer: `1` is easy, `2` is medium, `3`
    /// is hard. Any other answer gives medium, and `false` to say that the
    /// answer was not one of the three.
    pub fn difficulty_for(choice: &str) -> (picked: (Difficulty, bool))
        ensures
            picked == (if trim_of(choice@) == seq!['1'] {
                (Difficulty::easy_tier(), true)
            } else if trim_of(choice@) == seq!['2'] {
                (Difficulty::medium_tier(), true)
            } else if trim_of(choice@) == seq!['3'] {
                (Difficulty::hard_tier(), true)
            } else {
                (Difficulty::medium_tier(), false)
            }),
    {
        let chars = chars_of(choice);
        assert(chars@.subrange(0, chars@.len() as int) == chars@);
        let (start, end) = trimmed_bounds(&chars, 0, chars.len());
        let ghost answer = chars@.subrange(start as int, end as int);
        assert(seq!['1'].len() == 1 && seq!['2'].len() == 1 && seq!['3'].len() == 1);
        assert(seq!['1'][0] == '1' && seq!['2'][0] == '2' && seq!['3'][0] == '3');
        if end - start == 1 {
            let c = chars[start];
            assert(answer == seq![c]);
            if c == '1' {
                return (Difficulty::easy(), true);
            } else if c == '2' {
                return (Difficulty::medium(), true);
            } else if c == '3' {
                return (Difficulty::hard(), true);
            }
            assert(seq![c][0] == c);
        }
        (Difficulty::medium(), false)
    }

    /// The grid size chosen by an answer: `1` is 12, `2` is 15, `3` is 20.
    /// Any other answer gives 15, and `false` to say that the answer was
    /// not one of the three.
    pub fn grid_size_for(choice: &str) -> (picked: (usize, bool))
        ensures
            picked == (if trim_of(choice@) == seq!['1'] {
                (12usize, true)
            } else if trim_of(choice@) == seq!['2'] {
                (15usize, true)
            } else if trim_of(choice@) == seq!['3'] {
                (20usize, true)
            } else {
                (15usize, false)
            }),
    {
        let chars = chars_of(choice);
        assert(chars@.subrange(0, chars@.len() as int) == chars@);
        let (start, end) = trimmed_bounds(&chars, 0, chars.len());
        let ghost answer = chars@.subrange(start as int, end as int);
        assert(seq!['1'].len() == 1 && seq!['2'].len() == 1 && seq!['3'].len() == 1);
        assert(seq!['1'][0] == '1' && seq!['2'][0] == '2' && seq!['3'][0] == '3');
        if end - start == 1 {
            let c = chars[start];
            assert(answer == seq![c]);
            if c == '1' {
                return (12, true);
            } else if c == '2' {
                return (15, true);
            } else if c == '3' {
                return (20, true);
            }
            assert(seq![c][0] == c);
        }
        (15, false)
    }

    /// Tells whether a line ends the list of words: a blank line does, and
    /// so does the word `FIM` in any case.
    pub fn is_end_of_words(line: &str) -> (ended: bool)
        ensures
            ended == ends_words(line@),
    {
        let chars = chars_of(line);
        assert(chars@.subrange(0, chars@.len() as int) == chars@);
        let (start, end) = trimmed_bounds(&chars, 0, chars.len());
        let ghost answer = chars@.subrange(start as int, end as int);
        let ghost fim = seq!['F', 'I', 'M'];
        assert(fim.len() == 3 && fim[0] == 'F' && fim[1] == 'I' && fim[2] == 'M');
        if end == start {
            return true;
        }
        if end - start != 3 {
            return false;
        }
        let same = to_upper(chars[start]) == 'F' && to_upper(chars[start + 1]) == 'I' && to_upper(
            chars[start + 2],
        ) == 'M';
        proof {
            assert(answer[0] == chars@[start as int]);
            assert(answer[1] == chars@[start + 1]);
            assert(answer[2] == chars@[start + 2]);
            if !same {
                assert(!same_ignoring_ascii_case(answer, fim));
            }
        }
        same
    }

    /// Lists the words that a line gives: the trimmed line, or, if that
    /// holds a comma, its pieces between the commas, each trimmed, without
    /// the blank ones.
    pub fn words_in_line(line: &str) -> (words: Vec<String>)
        ensures
            texts_of(words@) == words_of_line(line@),
    {
        let chars = chars_of(line);
        assert(chars@.subrange(0, chars@.len() as int) == chars@);
        let (start, end) = trimmed_bounds(&chars, 0, chars.len());
        let ghost answer = chars@.subrange(start as int, end as int);
        let mut words: Vec<String> = Vec::new();

        let mut has_comma = false;
        let mut i: usize = start;
        while i < end
            invariant
                start <= i <= end <= chars@.len(),
                has_comma == chars@.subrange(start as int, i as int).contains(','),
            decreases end - i,
        {
            let ghost seen = chars@.subrange(start as int, i as int);
            assert(chars@.subrange(start as int, i + 1) == seen.push(chars@[i as int]));
            proof {
                if seen.contains(',') {
                    let k = choose|k: int| 0 <= k < seen.len() && seen[k] == ',';
                    assert(seen.push(chars@[i as int])[k] == ',');
                }
                if chars@[i as int] == ',' {
                    assert(seen.push(chars@[i as int])[i - start] == ',');
                }
            }
            if chars[i] == ',' {
                has_comma = true;
            }
            i += 1;
        }

        if !has_comma {
            if end > start {
                words.push(text_between(&chars, start, end));
                assert(texts_of(words@) == seq![answer]);
            } else {
                assert(texts_of(words@) == Seq::<Seq<char>>::empty());
            }
            return words;
        }
        let mut piece_start: usize = start;
        let mut at: usize = start;
        while at < end
            invariant
                start <= piece_start <= at <= end <= chars@.len(),
                pieces(chars@.subrange(start as int, at as int)).len() > 0,
                pieces(chars@.subrange(start as int, at as int)).last() == chars@.subrange(
                    piece_start as int,
                    at as int,
                ),
                texts_of(words@) == kept_words(
                    pieces(chars@.subrange(start as int, at as int)).drop_last(),
                ),
            decreases end - at,
        {
            let ghost seen = chars@.subrange(start as int, at as int);
            let ghost next = chars@.subrange(start as int, at + 1);
            assert(next.drop_last() == seen);
            if chars[at] == ',' {
                let (from, to) = trimmed_bounds(&chars, piece_start, at);
                let ghost before = words@;
                if to > from {
                    words.push(text_between(&chars, from, to));
                    assert(texts_of(words@) == texts_of(before).push(
                        chars@.subrange(from as int, to as int),
                    ));
                }
                assert(pieces(next).drop_last() == pieces(seen));
                assert(pieces(seen).drop_last().push(pieces(seen).last()) == pieces(seen));
                piece_start = at + 1;
                assert(chars@.subrange(piece_start as int, at + 1) == Seq::<char>::empty());
            } else {
                assert(pieces(next).drop_last() == pieces(seen).drop_last());
                assert(chars@.subrange(piece_start as int, at + 1) == chars@.subrange(
                    piece_start as int,
                    at as int,
                ).push(chars@[at as int]));
            }
            at += 1;
        }
        let (from, to) = trimmed_bounds(&chars, piece_start, end);
        let ghost before = words@;
        if to > from {
            words.push(text_between(&chars, from, to));
            assert(texts_of(words@) == texts_of(before).push(
                chars@.subrange(from as int, to as int),
            ));
        }
        assert(pieces(answer).drop_last().push(pieces(answer).last()) == pieces(answer));
        words
    }

    /// Takes one more line of words: unless the line ends the list, the
    /// words it gives are added to `words`. Returns whether more lines are
    /// to be read.
    pub fn accept_line(words: &mut Vec<String>, line: &str) -> (more: bool)
        ensures
            more == !ends_words(line@),
            more ==> texts_of(final(words)@) == texts_of(old(words)@) + words_of_line(line@),
            !more ==> final(words)@ == old(words)@,
    {
        if Self::is_end_of_words(line) {
            return false;
        }
        let mut found = Self::words_in_line(line);
        let ghost before = words@;
        let ghost added = found@;
        words.append(&mut found);
        assert(texts_of(words@) == texts_of(before) + texts_of(added));
        true
    }

    /// Puts the parts of an input together. A puzzle needs at least one
    /// word.
    pub fn assemble(title: String, difficulty: Difficulty, grid_size: usize, words: Vec<String>) -> (input: Result<PuzzleInput, InputError>)
        ensures
            words@.len() == 0 <==> input == Err::<PuzzleInput, InputError>(InputError::NoWords),
            words@.len() > 0 <==> input is Ok,
            input is Ok ==> input->Ok_0 == (PuzzleInput { title, difficulty, grid_size, words }),
    {
        if words.len() == 0 {
            return Err(InputError::NoWords);
        }
        Ok(Self { title, difficulty, grid_size, words })
    }
}

} // verus!
