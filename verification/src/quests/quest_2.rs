//! Quest 2, as it was first set: the three inputs are handed over
//! together, and their lines may end the way files from other machines do.

use vstd::prelude::*;
use crate::common::text::{chars_of, copy_range, rows, split, split_spec};
use crate::quests::{QuestError, text_of};
use crate::quests::quest_2024_02::{
    answer_matches,
    answer_scales,
    answer_symbols,
    matches_answer,
    scales_answer,
    symbols_answer,
};

verus! {

/// The puzzle with its inputs, one for each part.
pub struct Quest2 {
    inputs: Vec<String>,
}

/// `line` without the carriage return that may end it.
pub open spec fn without_return(line: Seq<char>) -> Seq<char> {
    if line.len() > 0 && line.last() == '\r' {
        line.drop_last()
    } else {
        line
    }
}

/// Of `pieces`, each without its carriage return, those that are not
/// empty.
pub open spec fn filled_lines(pieces: Seq<Seq<char>>) -> Seq<Seq<char>>
    decreases pieces.len(),
{
    if pieces.len() == 0 {
        Seq::empty()
    } else {
        let before = filled_lines(pieces.drop_last());
        let line = without_return(pieces.last());
        if line.len() > 0 {
            before.push(line)
        } else {
            before
        }
    }
}

/// The lines of `text` that are not empty. A line ends with a line feed,
/// and a carriage return before the line feed belongs to the line end.
pub open spec fn input_lines(text: Seq<char>) -> Seq<Seq<char>> {
    filled_lines(split_spec(text, '\n'))
}

/// The lines of the input that are not empty.
pub fn split_input(input: &str) -> (lines: Vec<Vec<char>>)
    ensures
        rows(lines@) == input_lines(input@),
{
    let chars = chars_of(input);
    let pieces = split(chars.as_slice(), '\n');
    let mut lines: Vec<Vec<char>> = Vec::new();
    let mut at: usize = 0;
    while at < pieces.len()
        invariant
            at <= pieces.len(),
            rows(lines@) == filled_lines(rows(pieces@).take(at as int)),
        decreases pieces.len() - at,
    {
        proof {
            assert(rows(pieces@).take(at + 1).drop_last() =~= rows(pieces@).take(at as int));
            assert(rows(pieces@).take(at + 1).last() == pieces[at as int]@);
        }
        let piece = &pieces[at];
        let end = if piece.len() > 0 && piece[piece.len() - 1] == '\r' {
            piece.len() - 1
        } else {
            piece.len()
        };
        if end > 0 {
            let line = copy_range(piece.as_slice(), 0, end);
            proof {
                assert(line@ =~= without_return(piece@));
                assert(rows(lines@.push(line)) =~= rows(lines@).push(line@));
            }
            lines.push(line);
        } else {
            proof {
                assert(without_return(piece@).len() == 0);
            }
        }
        at += 1;
    }
    proof {
        assert(rows(pieces@).take(at as int) =~= rows(pieces@));
    }
    lines
}

impl Default for Quest2 {
    fn default() -> (quest: Self)
        ensures
            quest@ == Seq::<Seq<char>>::empty(),
    {
        Self::new()
    }
}

impl Quest2 {
    /// The inputs, in the order of the parts.
    pub closed spec fn view(&self) -> Seq<Seq<char>> {
        self.inputs@.map_values(|input: String| input@)
    }

    /// The puzzle without any input.
    pub fn new() -> (quest: Self)
        ensures
            quest@ == Seq::<Seq<char>>::empty(),
    {
        let quest = Self { inputs: Vec::new() };
        proof {
            assert(quest@ =~= Seq::<Seq<char>>::empty());
        }
        quest
    }

    /// The puzzle with `inputs`, the first for the first part.
    pub fn with_inputs(inputs: Vec<String>) -> (quest: Self)
        ensures
            quest@ == inputs@.map_values(|input: String| input@),
    {
        Self { inputs }
    }

    /// What a part answers to its input: nothing where the puzzle has no
    /// input for the part.
    pub open spec fn answer(self, part: int, solved: Result<Seq<char>, QuestError>) -> Result<
        Seq<char>,
        QuestError,
    > {
        if part < self@.len() {
            solved
        } else {
            Err(QuestError::NoInput)
        }
    }

    /// The number of matches of the listed words in the inscription of the
    /// first input.
    pub fn part_one(&mut self) -> (answer: Result<String, QuestError>)
        ensures
            *final(self) == *old(self),
            text_of(answer) == old(self).answer(0, matches_answer(input_lines(old(self)@[0]))),
    {
        if self.inputs.len() < 1 {
            return Err(QuestError::NoInput);
        }
        let data = split_input(self.inputs[0].as_str());
        answer_matches(&data)
    }

    /// The number of runic symbols in the inscriptions of the second input.
    pub fn part_two(&mut self) -> (answer: Result<String, QuestError>)
        ensures
            *final(self) == *old(self),
            text_of(answer) == old(self).answer(1, symbols_answer(input_lines(old(self)@[1]))),
    {
        if self.inputs.len() < 2 {
            return Err(QuestError::NoInput);
        }
        let data = split_input(self.inputs[1].as_str());
        answer_symbols(&data)
    }

    /// The number of scales on the grid of the third input.
    pub fn part_three(&mut self) -> (answer: Result<String, QuestError>)
        ensures
            *final(self) == *old(self),
            text_of(answer) == old(self).answer(2, scales_answer(input_lines(old(self)@[2]))),
    {
        if self.inputs.len() < 3 {
            return Err(QuestError::NoInput);
        }
        let data = split_input(self.inputs[2].as_str());
        answer_scales(&data)
    }
}

} // verus!
