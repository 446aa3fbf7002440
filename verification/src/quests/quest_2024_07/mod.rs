//! Quest 7 of 2024: races on a track drawn as a diagram.
//!
//! A racer follows a list of actions, round after round, and starts it
//! again when it ends. The track has an action for each of its cells too,
//! and overrides the racer wherever it does not hold. A racer's total is
//! the sum of the scores reached after each round.

use vstd::prelude::*;
use crate::common::numbers::{decimal, decimal_text};
use crate::quests::{Quest, QuestError, QuestInputLoader, Solution, first_of, second_of, text_of, third_of};

pub mod action;
pub mod contest;
pub mod ranking;
pub mod roster;
pub mod search;
pub mod simulator;
pub mod tracer;

use action::Action;
use contest::{perform, perform_outcome, perform_with_racetrack, race_ranking_outcome};
use roster::{parse, parse_outcome, racers};
use search::{full_search_outcome, total_winning_plans};
use simulator::{LAPS, race_outcome, ranking_with_racetrack};
use tracer::{diagram, parse_racetrack, tracing_outcome};

verus! {

/// The number of rounds, and of laps, that the first two parts race for.
pub const SHORT_RACE: usize = 10;

/// The track of the second part.
pub const SECOND_TRACK: &'static str = "S-=++=-==++=++=-=+=-=+=+=--=-=++=-==++=-+=-=+=-=+=+=++=-+==++=++=-=-=--
-                                                                     -
=                                                                     =
+                                                                     +
=                                                                     +
+                                                                     =
=                                                                     =
-                                                                     -
--==++++==+=+++-=+=-=+=-+-=+-=+-=+=-=+=--=+++=++=+++==++==--=+=++==+++-";

/// The track of the third part.
pub const THIRD_TRACK: &'static str = "S+= +=-== +=++=     =+=+=--=    =-= ++=     +=-  =+=++=-+==+ =++=-=-=--
- + +   + =   =     =      =   == = - -     - =  =         =-=        -
= + + +-- =-= ==-==-= --++ +  == == = +     - =  =    ==++=    =++=-=++
+ + + =     +         =  + + == == ++ =     = =  ==   =   = =++=       
= = + + +== +==     =++ == =+=  =  +  +==-=++ =   =++ --= + =          
+ ==- = + =   = =+= =   =       ++--          +     =   = = =--= ==++==
=     ==- ==+-- = = = ++= +=--      ==+ ==--= +--+=-= ==- ==   =+=    =
-               = = = =   +  +  ==+ = = +   =        ++    =          -
-               = + + =   +  -  = + = = +   =        +     =          -
--==++++==+=+++-= =-= =-+-=  =+-= =-= =--   +=++=+++==     -=+=++==+++-";

/// The racetrack puzzle with its title, its inputs and its solver.
pub fn assemble() -> (quest: Quest)
    ensures
        quest.title@ == "Quest 2024 7: Not Fast but Furious"@,
        quest.input_loader@ == QuestInputLoader::with_quest_date_spec(2024, 7),
        forall|input: Seq<char>| quest.solution.first_answer(input) == #[trigger] first_of(7, input),
        forall|input: Seq<char>|
            quest.solution.second_answer(input) == #[trigger] second_of(7, input),
        forall|input: Seq<char>| quest.solution.third_answer(input) == #[trigger] third_of(7, input),
{
    let quest = Quest {
        title: "Quest 2024 7: Not Fast but Furious".to_owned(),
        input_loader: QuestInputLoader::with_quest_date(2024, 7),
        solution: Box::new(Q2024_7),
    };
    proof {
        assert forall|input: Seq<char>|
            quest.solution.first_answer(input) == #[trigger] first_of(7, input) by {
            assert(first_of(7, input) == Q2024_7.first_answer(input));
        }
        assert forall|input: Seq<char>|
            quest.solution.second_answer(input) == #[trigger] second_of(7, input) by {
            assert(second_of(7, input) == Q2024_7.second_answer(input));
        }
        assert forall|input: Seq<char>|
            quest.solution.third_answer(input) == #[trigger] third_of(7, input) by {
            assert(third_of(7, input) == Q2024_7.third_answer(input));
        }
    }
    quest
}

/// The solver of the racetrack puzzle.
#[allow(non_camel_case_types)]
pub struct Q2024_7;

impl Solution for Q2024_7 {
    /// The ranking after ten rounds on open ground.
    open spec fn first_answer(&self, input: Seq<char>) -> Result<Seq<char>, QuestError> {
        match parse_outcome(input) {
            Ok(roster) => perform_outcome(roster, SHORT_RACE as nat),
            Err(error) => Err(error),
        }
    }

    /// The ranking after ten laps of the second track.
    open spec fn second_answer(&self, input: Seq<char>) -> Result<Seq<char>, QuestError> {
        match tracing_outcome(diagram(SECOND_TRACK@)) {
            Ok(track) => match parse_outcome(input) {
                Ok(roster) => race_ranking_outcome(track, roster, SHORT_RACE as nat),
                Err(error) => Err(error),
            },
            Err(error) => Err(error),
        }
    }

    /// The number of plans that beat the first racer over the full race on
    /// the third track, in decimal.
    open spec fn third_answer(&self, input: Seq<char>) -> Result<Seq<char>, QuestError> {
        match tracing_outcome(diagram(THIRD_TRACK@)) {
            Ok(track) => match parse_outcome(input) {
                Ok(roster) => if roster.len() == 0 {
                    Err(QuestError::MalformedInput)
                } else {
                    match race_outcome(track, roster[0].1, LAPS as nat) {
                        Ok(base) => match full_search_outcome(track, base as nat) {
                            Ok(count) => Ok(decimal(count as nat)),
                            Err(error) => Err(error),
                        },
                        Err(error) => Err(error),
                    }
                },
                Err(error) => Err(error),
            },
            Err(error) => Err(error),
        }
    }

    fn part_one(&self, input: &str) -> (answer: Result<String, QuestError>) {
        let data = parse(input)?;
        perform(&data, SHORT_RACE)
    }

    fn part_two(&self, input: &str) -> (answer: Result<String, QuestError>) {
        let racetrack = parse_racetrack(SECOND_TRACK)?;
        let data = parse(input)?;
        perform_with_racetrack(&data, SHORT_RACE, racetrack.as_slice())
    }

    fn part_three(&self, input: &str) -> (answer: Result<String, QuestError>) {
        let racetrack = parse_racetrack(THIRD_TRACK)?;
        let data = parse(input)?;
        if data.len() == 0 {
            return Err(QuestError::MalformedInput);
        }
        proof {
            assert(racers(data@)[0].1 == data[0].1@);
        }
        let base = ranking_with_racetrack(data[0].1.as_slice(), racetrack.as_slice())?;
        let count = total_winning_plans(racetrack.as_slice(), base)?;
        Ok(decimal_text(count as u64))
    }
}

} // verus!
