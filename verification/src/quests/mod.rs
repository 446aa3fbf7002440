//! The puzzles, one module each, and what they share.

use vstd::prelude::*;
use vstd::string::StringExecFns;
use crate::common::numbers::{decimal, padded_decimal, push_decimal};

pub mod quest_1;
pub mod quest_2;
pub mod quest_2024_02;
pub mod quest_2024_03;
pub mod quest_2024_04;
pub mod quest_2024_05;
pub mod quest_2024_06;
pub mod quest_2024_07;

verus! {

/// Why a puzzle could not be answered.
#[derive(Debug, Clone, Copy, PartialEq, Eq, Structural)]
pub enum QuestError {
    /// The input could not be read.
    IoError,
    /// No input is known for the part asked for.
    NoInput,
    /// The text does not have the shape the puzzle expects.
    MalformedInput,
    /// A race was asked for with an empty track or an empty action list.
    PreconditionViolation,
    /// The work asked for is beyond what the machine or the budget allows.
    ResourceExhaustion,
}

impl QuestError {
    /// What went wrong, in words.
    pub open spec fn description(self) -> Seq<char> {
        match self {
            QuestError::IoError => "the input could not be read"@,
            QuestError::NoInput => "there is no input for this part"@,
            QuestError::MalformedInput => "the input does not have the expected shape"@,
            QuestError::PreconditionViolation => "a race needs a track and a list of actions"@,
            QuestError::ResourceExhaustion => "the work is beyond what can be counted or searched"@,
        }
    }

    /// What went wrong, in words.
    pub fn describe(&self) -> (text: String)
        ensures
            text@ == self.description(),
    {
        match self {
            QuestError::IoError => "the input could not be read".to_owned(),
            QuestError::NoInput => "there is no input for this part".to_owned(),
            QuestError::MalformedInput => "the input does not have the expected shape".to_owned(),
            QuestError::PreconditionViolation => "a race needs a track and a list of actions".to_owned(),
            QuestError::ResourceExhaustion => "the work is beyond what can be counted or searched".to_owned(),
        }
    }
}

/// What a step of a puzzle gives: a value, or the reason why there is none.
pub type QuestResult<T> = Result<T, QuestError>;

/// A count, if it fits the machine's integers.
pub open spec fn counted(count: nat) -> Result<usize, QuestError> {
    if count <= usize::MAX {
        Ok(count as usize)
    } else {
        Err(QuestError::ResourceExhaustion)
    }
}

/// A count written in decimal.
pub open spec fn count_text(count: Result<usize, QuestError>) -> Result<Seq<char>, QuestError> {
    match count {
        Ok(count) => Ok(decimal(count as nat)),
        Err(error) => Err(error),
    }
}

/// An answer as a sequence of characters.
pub open spec fn text_of(answer: Result<String, QuestError>) -> Result<Seq<char>, QuestError> {
    match answer {
        Ok(text) => Ok(text@),
        Err(error) => Err(error),
    }
}

/// The three parts of a puzzle. Each part is a function of the input text:
/// the spec functions say which, and the methods compute it.
pub trait Solution {
    spec fn first_answer(&self, input: Seq<char>) -> Result<Seq<char>, QuestError>;

    spec fn second_answer(&self, input: Seq<char>) -> Result<Seq<char>, QuestError>;

    spec fn third_answer(&self, input: Seq<char>) -> Result<Seq<char>, QuestError>;

    fn part_one(&self, input: &str) -> (answer: Result<String, QuestError>)
        ensures
            text_of(answer) == self.first_answer(input@),
    ;

    fn part_two(&self, input: &str) -> (answer: Result<String, QuestError>)
        ensures
            text_of(answer) == self.second_answer(input@),
    ;

    fn part_three(&self, input: &str) -> (answer: Result<String, QuestError>)
        ensures
            text_of(answer) == self.third_answer(input@),
    ;
}

/// What the first part of the puzzle `number` answers; the puzzles are
/// numbered from one.
pub open spec fn first_of(number: int, input: Seq<char>) -> Result<Seq<char>, QuestError> {
    if number == 1 {
        quest_1::Q1.first_answer(input)
    } else if number == 2 {
        quest_2024_02::Q2024_2.first_answer(input)
    } else if number == 3 {
        quest_2024_03::Q2024_3.first_answer(input)
    } else if number == 4 {
        quest_2024_04::Q2024_4.first_answer(input)
    } else if number == 5 {
        quest_2024_05::Q2024_5.first_answer(input)
    } else if number == 6 {
        quest_2024_06::Q2024_6.first_answer(input)
    } else {
        quest_2024_07::Q2024_7.first_answer(input)
    }
}

/// What the second part of the puzzle `number` answers.
pub open spec fn second_of(number: int, input: Seq<char>) -> Result<Seq<char>, QuestError> {
    if number == 1 {
        quest_1::Q1.second_answer(input)
    } else if number == 2 {
        quest_2024_02::Q2024_2.second_answer(input)
    } else if number == 3 {
        quest_2024_03::Q2024_3.second_answer(input)
    } else if number == 4 {
        quest_2024_04::Q2024_4.second_answer(input)
    } else if number == 5 {
        quest_2024_05::Q2024_5.second_answer(input)
    } else if number == 6 {
        quest_2024_06::Q2024_6.second_answer(input)
    } else {
        quest_2024_07::Q2024_7.second_answer(input)
    }
}

/// What the third part of the puzzle `number` answers.
pub open spec fn third_of(number: int, input: Seq<char>) -> Result<Seq<char>, QuestError> {
    if number == 1 {
        quest_1::Q1.third_answer(input)
    } else if number == 2 {
        quest_2024_02::Q2024_2.third_answer(input)
    } else if number == 3 {
        quest_2024_03::Q2024_3.third_answer(input)
    } else if number == 4 {
        quest_2024_04::Q2024_4.third_answer(input)
    } else if number == 5 {
        quest_2024_05::Q2024_5.third_answer(input)
    } else if number == 6 {
        quest_2024_06::Q2024_6.third_answer(input)
    } else {
        quest_2024_07::Q2024_7.third_answer(input)
    }
}

/// The title of the puzzle `number`.
pub open spec fn title_of(number: int) -> Seq<char> {
    if number == 1 {
        "Quest 1: The Battle for the Farmlands"@
    } else if number == 2 {
        "Quest 2: The Runes of Power"@
    } else if number == 3 {
        "Quest 3: Mining Maestro"@
    } else if number == 4 {
        "Quest 2024 4: Royal Smith's Puzzle"@
    } else if number == 5 {
        "Quest 2024 5: Pseudo-Random Clap Dance"@
    } else if number == 6 {
        "Quest 2024 6: The Tree of Titans"@
    } else {
        "Quest 2024 7: Not Fast but Furious"@
    }
}

/// The number of puzzles.
pub const QUESTS: usize = 7;

/// Where the puzzles are to be had.
pub struct QuestFactory;

impl QuestFactory {
    /// The puzzle `number`, counted from one; none beyond the last.
    pub fn quest(&self, number: usize) -> (found: Option<Quest>)
        requires
            number >= 1,
        ensures
            found is Some <==> number <= QUESTS,
            found is Some ==> {
                &&& found->Some_0.title@ == title_of(number as int)
                &&& found->Some_0.input_loader@ == QuestInputLoader::with_quest_date_spec(
                    2024,
                    number as nat,
                )
                &&& forall|input: Seq<char>|
                    found->Some_0.solution.first_answer(input) == #[trigger] first_of(
                        number as int,
                        input,
                    )
                &&& forall|input: Seq<char>|
                    found->Some_0.solution.second_answer(input) == #[trigger] second_of(
                        number as int,
                        input,
                    )
                &&& forall|input: Seq<char>|
                    found->Some_0.solution.third_answer(input) == #[trigger] third_of(
                        number as int,
                        input,
                    )
            },
    {
        if number == 1 {
            Some(quest_1::assemble_quest_1())
        } else if number == 2 {
            Some(quest_2024_02::assemble_quest_2024_2())
        } else if number == 3 {
            Some(quest_2024_03::assemble())
        } else if number == 4 {
            Some(quest_2024_04::assemble_quest_2024_4())
        } else if number == 5 {
            Some(quest_2024_05::assemble())
        } else if number == 6 {
            Some(quest_2024_06::assemble())
        } else if number == 7 {
            Some(quest_2024_07::assemble())
        } else {
            None
        }
    }

    /// The puzzle that is being worked on: the last.
    pub fn custom(&self) -> (found: Option<Quest>)
        ensures
            found is Some,
            found->Some_0.title@ == title_of(7),
            found->Some_0.input_loader@ == QuestInputLoader::with_quest_date_spec(2024, 7),
            forall|input: Seq<char>|
                found->Some_0.solution.first_answer(input) == #[trigger] first_of(7, input),
            forall|input: Seq<char>|
                found->Some_0.solution.second_answer(input) == #[trigger] second_of(7, input),
            forall|input: Seq<char>|
                found->Some_0.solution.third_answer(input) == #[trigger] third_of(7, input),
    {
        self.quest(7)
    }
}

/// A puzzle: its title, where its inputs are kept, and how it is solved.
pub struct Quest {
    pub title: String,
    pub input_loader: QuestInputLoader,
    pub solution: Box<dyn Solution>,
}

/// The places where the inputs of a puzzle are kept, one for each part.
pub struct QuestInputLoader {
    sources: Vec<String>,
}

/// Where the input of one part of a dated puzzle is kept.
pub open spec fn dated_source(year: nat, number: nat, part: nat) -> Seq<char> {
    "input/everybody_codes_e"@ + decimal(year) + "_q"@ + padded_decimal(number, 2) + "_p"@
        + decimal(part) + ".txt"@
}

proof fn lemma_two_digits(number: nat)
    ensures
        number < 10 ==> padded_decimal(number, 2) == seq!['0'] + decimal(number),
        number >= 10 ==> padded_decimal(number, 2) == decimal(number),
{
    if number < 10 {
        assert(padded_decimal(number, 2) =~= seq!['0'] + decimal(number));
    } else {
        assert(decimal(number).len() == decimal(number / 10).len() + 1);
        assert(decimal(number / 10).len() >= 1) by {
            if number / 10 >= 10 {
                assert(decimal(number / 10).len() == decimal(number / 10 / 10).len() + 1);
            }
        }
    }
}

fn dated_path(year: usize, number: usize, part: usize) -> (path: String)
    ensures
        path@ == dated_source(year as nat, number as nat, part as nat),
{
    let mut path = "input/everybody_codes_e".to_owned();
    push_decimal(&mut path, year as u64);
    path.append("_q");
    if number < 10 {
        path.append("0");
        proof {
            reveal_strlit("0");
            assert("0"@ =~= seq!['0']);
        }
    }
    let ghost before = path@;
    push_decimal(&mut path, number as u64);
    proof {
        lemma_two_digits(number as nat);
        assert(path@ =~= "input/everybody_codes_e"@ + decimal(year as nat) + "_q"@
            + padded_decimal(number as nat, 2));
    }
    path.append("_p");
    push_decimal(&mut path, part as u64);
    path.append(".txt");
    path
}

impl QuestInputLoader {
    /// The places, in the order of the parts.
    pub closed spec fn view(&self) -> Seq<Seq<char>> {
        self.sources@.map_values(|source: String| source@)
    }

    /// The places of the three parts of the puzzle `number` of `year`.
    pub open spec fn with_quest_date_spec(year: nat, number: nat) -> Seq<Seq<char>> {
        Seq::new(3, |part: int| dated_source(year, number, (part + 1) as nat))
    }

    /// The loader of the puzzle `number` of `year`: three parts, each kept
    /// under its dated name.
    pub fn with_quest_date(year: usize, number: usize) -> (loader: Self)
        ensures
            loader@ == Self::with_quest_date_spec(year as nat, number as nat),
    {
        let mut path_list: Vec<String> = Vec::new();
        let mut part: usize = 1;
        while part <= 3
            invariant
                1 <= part <= 4,
                path_list.len() == part - 1,
                forall|i: int|
                    0 <= i < part - 1 ==> (#[trigger] path_list[i])@ == dated_source(
                        year as nat,
                        number as nat,
                        (i + 1) as nat,
                    ),
            decreases 4 - part,
        {
            path_list.push(dated_path(year, number, part));
            part += 1;
        }
        let loader = Self::with_sources(path_list.as_slice());
        proof {
            assert(loader@ =~= Self::with_quest_date_spec(year as nat, number as nat));
        }
        loader
    }

    /// The loader that keeps the part `i` at `path_list[i]`.
    pub fn with_sources(path_list: &[String]) -> (loader: Self)
        ensures
            loader@ == path_list@.map_values(|source: String| source@),
    {
        let mut sources: Vec<String> = Vec::new();
        let mut at: usize = 0;
        while at < path_list.len()
            invariant
                at <= path_list.len(),
                sources.len() == at,
                forall|i: int| 0 <= i < at ==> (#[trigger] sources[i])@ == path_list[i]@,
            decreases path_list.len() - at,
        {
            sources.push(path_list[at].clone());
            at += 1;
        }
        let loader = Self { sources };
        proof {
            assert(loader@ =~= path_list@.map_values(|source: String| source@));
        }
        loader
    }

    /// Where the input of `part` is kept; parts count from zero.
    pub fn source(&self, part: usize) -> (place: Result<&String, QuestError>)
        ensures
            match place {
                Ok(path) => part < self@.len() && path@ == self@[part as int],
                Err(error) => part >= self@.len() && error == QuestError::NoInput,
            },
    {
        if part < self.sources.len() {
            Ok(&self.sources[part])
        } else {
            Err(QuestError::NoInput)
        }
    }
}

} // verus!
