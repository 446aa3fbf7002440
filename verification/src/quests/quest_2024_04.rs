//! Quest 4 of 2024: nails to be struck level.

use vstd::prelude::*;
use crate::common::numbers::{decimal, decimal_text, is_number, number_of, parse_number, unsigned_digits};
use crate::common::text::{chars_of, lines_of, rows, trimmed_lines};
use crate::quests::{Quest, QuestError, QuestInputLoader, Solution, first_of, second_of, text_of, third_of};

verus! {

/// The distance between two heights.
pub open spec fn gap(height: int, level: int) -> nat {
    if height >= level {
        (height - level) as nat
    } else {
        (level - height) as nat
    }
}

/// The strikes it takes to bring every nail to `level`, one strike for
/// each unit of height.
pub open spec fn strikes_to(nails: Seq<u64>, level: int) -> nat
    decreases nails.len(),
{
    if nails.len() == 0 {
        0
    } else {
        strikes_to(nails.drop_last(), level) + gap(nails.last() as int, level)
    }
}

/// The height of the shortest nail; zero where there is no nail.
pub open spec fn lowest(nails: Seq<u64>) -> nat
    decreases nails.len(),
{
    if nails.len() == 0 {
        0
    } else if nails.len() == 1 {
        nails[0] as nat
    } else if nails.last() < lowest(nails.drop_last()) {
        nails.last() as nat
    } else {
        lowest(nails.drop_last())
    }
}

/// The strikes it takes to hammer every nail down to the shortest.
pub open spec fn min_strikes(nails: Seq<u64>) -> nat {
    strikes_to(nails, lowest(nails) as int)
}

/// The fewest strikes that bring all `nails` to the height of one of
/// `levels`; nothing where there is no level to choose.
pub open spec fn least_strikes(nails: Seq<u64>, levels: Seq<u64>) -> Option<nat>
    decreases levels.len(),
{
    if levels.len() == 0 {
        None
    } else {
        let here = strikes_to(nails, levels.last() as int);
        match least_strikes(nails, levels.drop_last()) {
            Some(best) => if here < best {
                Some(here)
            } else {
                Some(best)
            },
            None => Some(here),
        }
    }
}

/// The fewest strikes, up or down, that bring all nails to the height of
/// one of them; zero where there is no nail.
pub open spec fn min_bidirectional_strikes(nails: Seq<u64>) -> nat {
    match least_strikes(nails, nails) {
        Some(best) => best,
        None => 0,
    }
}

/// An answer in strikes, if it fits the machine's integers.
pub open spec fn strikes_outcome(strikes: nat) -> Result<u64, QuestError> {
    if strikes <= u64::MAX {
        Ok(strikes as u64)
    } else {
        Err(QuestError::ResourceExhaustion)
    }
}

/// The heights that `lines` write, one number a line.
pub open spec fn heights_outcome(lines: Seq<Seq<char>>) -> Result<Seq<u64>, QuestError>
    decreases lines.len(),
{
    if lines.len() == 0 {
        Ok(Seq::empty())
    } else {
        let line = lines.last();
        match heights_outcome(lines.drop_last()) {
            Ok(before) => if is_number(line) && number_of(unsigned_digits(line)) <= u64::MAX {
                Ok(before.push(number_of(unsigned_digits(line)) as u64))
            } else {
                Err(QuestError::MalformedInput)
            },
            Err(error) => Err(error),
        }
    }
}

/// The heights that a text writes: its lines are trimmed, and blank lines
/// do not count.
pub open spec fn parse_outcome(input: Seq<char>) -> Result<Seq<u64>, QuestError> {
    heights_outcome(trimmed_lines(input))
}

/// The shortest nail is one of the nails, and none is shorter.
pub proof fn lowest_is_least(nails: Seq<u64>)
    ensures
        forall|i: int| 0 <= i < nails.len() ==> lowest(nails) <= #[trigger] nails[i],
        nails.len() > 0 ==> exists|i: int| 0 <= i < nails.len() && nails[i] == lowest(nails),
    decreases nails.len(),
{
    if nails.len() > 1 {
        let before = nails.drop_last();
        lowest_is_least(before);
        assert forall|i: int| 0 <= i < nails.len() implies lowest(nails) <= #[trigger] nails[i] by {
            if i < nails.len() - 1 {
                assert(before[i] == nails[i]);
            }
        }
        if nails.last() < lowest(before) {
            assert(nails[nails.len() - 1] == lowest(nails));
        } else {
            let at = choose|at: int| 0 <= at < before.len() && before[at] == lowest(before);
            assert(nails[at] == lowest(nails));
        }
    } else if nails.len() == 1 {
        assert(nails[0] == lowest(nails));
    }
}

/// The best level is one of the levels, and no level does better.
pub proof fn least_strikes_is_least(nails: Seq<u64>, levels: Seq<u64>)
    ensures
        levels.len() == 0 <==> least_strikes(nails, levels) is None,
        forall|i: int|
            0 <= i < levels.len() ==> least_strikes(nails, levels)->Some_0 <= strikes_to(
                nails,
                #[trigger] levels[i] as int,
            ),
        levels.len() > 0 ==> exists|i: int|
            0 <= i < levels.len() && strikes_to(nails, levels[i] as int) == least_strikes(
                nails,
                levels,
            )->Some_0,
    decreases levels.len(),
{
    if levels.len() > 0 {
        let before = levels.drop_last();
        least_strikes_is_least(nails, before);
        let best = least_strikes(nails, levels)->Some_0;
        assert forall|i: int| 0 <= i < levels.len() implies best <= strikes_to(
            nails,
            #[trigger] levels[i] as int,
        ) by {
            if i < levels.len() - 1 {
                assert(before[i] == levels[i]);
            }
        }
        if strikes_to(nails, levels.last() as int) == best {
            assert(strikes_to(nails, levels[levels.len() - 1] as int) == best);
        } else {
            let at = choose|at: int|
                0 <= at < before.len() && strikes_to(nails, before[at] as int) == least_strikes(
                    nails,
                    before,
                )->Some_0;
            assert(strikes_to(nails, levels[at] as int) == best);
        }
    }
}

proof fn lemma_strikes_grow(nails: Seq<u64>, level: int, upto: int)
    requires
        0 <= upto <= nails.len(),
    ensures
        strikes_to(nails.take(upto), level) <= strikes_to(nails, level),
    decreases nails.len() - upto,
{
    if upto < nails.len() {
        lemma_strikes_grow(nails, level, upto + 1);
        assert(nails.take(upto + 1).drop_last() =~= nails.take(upto));
    } else {
        assert(nails.take(upto) =~= nails);
    }
}

proof fn lemma_heights_error_persists(lines: Seq<Seq<char>>, upto: int)
    requires
        0 <= upto <= lines.len(),
        heights_outcome(lines.take(upto)) is Err,
    ensures
        heights_outcome(lines) == Err::<Seq<u64>, QuestError>(QuestError::MalformedInput),
    decreases lines.len() - upto,
{
    if upto < lines.len() {
        assert(lines.take(upto + 1).drop_last() =~= lines.take(upto));
        lemma_heights_error_persists(lines, upto + 1);
    } else {
        assert(lines.take(upto) =~= lines);
        lemma_heights_error_is_malformed(lines);
    }
}

proof fn lemma_heights_error_is_malformed(lines: Seq<Seq<char>>)
    ensures
        heights_outcome(lines) is Err ==> heights_outcome(lines) == Err::<Seq<u64>, QuestError>(
            QuestError::MalformedInput,
        ),
    decreases lines.len(),
{
    if lines.len() > 0 {
        lemma_heights_error_is_malformed(lines.drop_last());
    }
}

/// The strikes that bring every nail of `arr` to `level`, if they can be
/// counted.
fn strikes_toward(arr: &[u64], level: u64) -> (strikes: Option<u64>)
    ensures
        strikes is Some <==> strikes_to(arr@, level as int) <= u64::MAX,
        strikes is Some ==> strikes->Some_0 == strikes_to(arr@, level as int),
{
    let mut sum: u64 = 0;
    let mut at: usize = 0;
    while at < arr.len()
        invariant
            at <= arr.len(),
            sum == strikes_to(arr@.take(at as int), level as int),
        decreases arr.len() - at,
    {
        let height = arr[at];
        let distance = if height >= level {
            height - level
        } else {
            level - height
        };
        proof {
            assert(arr@.take(at + 1).drop_last() =~= arr@.take(at as int));
            lemma_strikes_grow(arr@, level as int, at + 1);
        }
        match sum.checked_add(distance) {
            Some(more) => {
                sum = more;
            },
            None => {
                return None;
            },
        }
        at += 1;
    }
    proof {
        assert(arr@.take(at as int) =~= arr@);
    }
    Some(sum)
}

/// The strikes that hammer every nail down to the shortest.
pub fn get_min_strikes(arr: &[u64]) -> (outcome: Result<u64, QuestError>)
    ensures
        outcome == strikes_outcome(min_strikes(arr@)),
{
    if arr.len() == 0 {
        return Ok(0);
    }
    let mut min = arr[0];
    let mut at: usize = 1;
    proof {
        assert(arr@.take(1).len() == 1);
    }
    while at < arr.len()
        invariant
            1 <= at <= arr.len(),
            min == lowest(arr@.take(at as int)),
        decreases arr.len() - at,
    {
        proof {
            assert(arr@.take(at + 1).drop_last() =~= arr@.take(at as int));
        }
        if arr[at] < min {
            min = arr[at];
        }
        at += 1;
    }
    proof {
        assert(arr@.take(at as int) =~= arr@);
    }
    match strikes_toward(arr, min) {
        Some(strikes) => Ok(strikes),
        None => Err(QuestError::ResourceExhaustion),
    }
}

/// The fewest strikes, up or down, that bring all nails to the height of
/// one of them.
pub fn get_min_bidirectional_strikes(arr: &[u64]) -> (outcome: Result<u64, QuestError>)
    ensures
        outcome == strikes_outcome(min_bidirectional_strikes(arr@)),
{
    let mut best: Option<u64> = None;
    let mut at: usize = 0;
    while at < arr.len()
        invariant
            at <= arr.len(),
            match least_strikes(arr@, arr@.take(at as int)) {
                Some(least) => if least <= u64::MAX {
                    best == Some(least as u64)
                } else {
                    best is None
                },
                None => best is None && at == 0,
            },
        decreases arr.len() - at,
    {
        proof {
            assert(arr@.take(at + 1).drop_last() =~= arr@.take(at as int));
        }
        match strikes_toward(arr, arr[at]) {
            Some(here) => {
                best = match best {
                    Some(least) => if here < least {
                        Some(here)
                    } else {
                        Some(least)
                    },
                    None => Some(here),
                };
            },
            None => {},
        }
        at += 1;
    }
    proof {
        assert(arr@.take(at as int) =~= arr@);
    }
    if arr.len() == 0 {
        return Ok(0);
    }
    match best {
        Some(least) => Ok(least),
        None => Err(QuestError::ResourceExhaustion),
    }
}

/// The heights of the nails, one on each line of `input`.
pub fn parse(input: &str) -> (outcome: Result<Vec<u64>, QuestError>)
    ensures
        match outcome {
            Ok(values) => parse_outcome(input@) == Ok::<Seq<u64>, QuestError>(values@),
            Err(error) => parse_outcome(input@) == Err::<Seq<u64>, QuestError>(error),
        },
{
    let chars = chars_of(input);
    let lines = lines_of(chars.as_slice());
    let mut values: Vec<u64> = Vec::new();
    let mut at: usize = 0;
    while at < lines.len()
        invariant
            at <= lines.len(),
            rows(lines@) == trimmed_lines(input@),
            heights_outcome(rows(lines@).take(at as int)) == Ok::<Seq<u64>, QuestError>(values@),
        decreases lines.len() - at,
    {
        proof {
            assert(rows(lines@).take(at + 1).drop_last() =~= rows(lines@).take(at as int));
            assert(rows(lines@).take(at + 1).last() == lines[at as int]@);
        }
        match parse_number(lines[at].as_slice()) {
            Some(value) => {
                values.push(value);
            },
            None => {
                proof {
                    lemma_heights_error_persists(rows(lines@), at + 1);
                }
                return Err(QuestError::MalformedInput);
            },
        }
        at += 1;
    }
    proof {
        assert(rows(lines@).take(at as int) =~= rows(lines@));
    }
    Ok(values)
}

/// The nail puzzle with its title, its inputs and its solver.
pub fn assemble_quest_2024_4() -> (quest: Quest)
    ensures
        quest.title@ == "Quest 2024 4: Royal Smith's Puzzle"@,
        quest.input_loader@ == QuestInputLoader::with_quest_date_spec(2024, 4),
        forall|input: Seq<char>| quest.solution.first_answer(input) == #[trigger] first_of(4, input),
        forall|input: Seq<char>|
            quest.solution.second_answer(input) == #[trigger] second_of(4, input),
        forall|input: Seq<char>| quest.solution.third_answer(input) == #[trigger] third_of(4, input),
{
    let quest = Quest {
        title: "Quest 2024 4: Royal Smith's Puzzle".to_owned(),
        input_loader: QuestInputLoader::with_quest_date(2024, 4),
        solution: Box::new(Q2024_4),
    };
    proof {
        assert forall|input: Seq<char>|
            quest.solution.first_answer(input) == #[trigger] first_of(4, input) by {
            assert(first_of(4, input) == Q2024_4.first_answer(input));
        }
        assert forall|input: Seq<char>|
            quest.solution.second_answer(input) == #[trigger] second_of(4, input) by {
            assert(second_of(4, input) == Q2024_4.second_answer(input));
        }
        assert forall|input: Seq<char>|
            quest.solution.third_answer(input) == #[trigger] third_of(4, input) by {
            assert(third_of(4, input) == Q2024_4.third_answer(input));
        }
    }
    quest
}

/// The solver of the nail puzzle.
#[allow(non_camel_case_types)]
pub struct Q2024_4;

/// An answer in strikes, written in decimal.
pub open spec fn strikes_text(outcome: Result<u64, QuestError>) -> Result<Seq<char>, QuestError> {
    match outcome {
        Ok(strikes) => Ok(decimal(strikes as nat)),
        Err(error) => Err(error),
    }
}

impl Solution for Q2024_4 {
    /// The strikes that hammer every nail down to the shortest.
    open spec fn first_answer(&self, input: Seq<char>) -> Result<Seq<char>, QuestError> {
        match parse_outcome(input) {
            Ok(nails) => strikes_text(strikes_outcome(min_strikes(nails))),
            Err(error) => Err(error),
        }
    }

    /// The same as the first answer.
    open spec fn second_answer(&self, input: Seq<char>) -> Result<Seq<char>, QuestError> {
        self.first_answer(input)
    }

    /// The fewest strikes, up or down, that level the nails.
    open spec fn third_answer(&self, input: Seq<char>) -> Result<Seq<char>, QuestError> {
        match parse_outcome(input) {
            Ok(nails) => strikes_text(strikes_outcome(min_bidirectional_strikes(nails))),
            Err(error) => Err(error),
        }
    }

    fn part_one(&self, input: &str) -> (answer: Result<String, QuestError>) {
        let values = parse(input)?;
        let strikes = get_min_strikes(values.as_slice())?;
        Ok(decimal_text(strikes))
    }

    fn part_two(&self, input: &str) -> (answer: Result<String, QuestError>) {
        self.part_one(input)
    }

    fn part_three(&self, input: &str) -> (answer: Result<String, QuestError>) {
        let values = parse(input)?;
        let strikes = get_min_bidirectional_strikes(values.as_slice())?;
        Ok(decimal_text(strikes))
    }
}

} // verus!
