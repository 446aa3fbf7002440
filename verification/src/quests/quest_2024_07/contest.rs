//! Contests: several racers over the same rounds, ranked by their totals.

use vstd::prelude::*;
use crate::quests::QuestError;
use crate::quests::quest_2024_07::action::Action;
use crate::quests::quest_2024_07::ranking::{calc_ranking, ranking_text, standings};
use crate::quests::quest_2024_07::roster::racers;
use crate::quests::quest_2024_07::simulator::{simulate, simulation_outcome};

verus! {

/// The track that never overrides: one cell that holds.
pub open spec fn open_ground() -> Seq<Action> {
    seq![Action::Keep]
}

/// The totals of the racers over `rounds` rounds of `track`, in the order
/// of the roster. The first racer whose simulation fails makes the whole
/// contest fail in the same way.
pub open spec fn totals_outcome(
    track: Seq<Action>,
    roster: Seq<(Seq<char>, Seq<Action>)>,
    rounds: nat,
) -> Result<Seq<(Seq<char>, nat)>, QuestError>
    decreases roster.len(),
{
    if roster.len() == 0 {
        Ok(Seq::empty())
    } else {
        match totals_outcome(track, roster.drop_last(), rounds) {
            Ok(before) => match simulation_outcome(track, roster.last().1, rounds) {
                Ok(total) => Ok(before.push((roster.last().0, total as nat))),
                Err(error) => Err(error),
            },
            Err(error) => Err(error),
        }
    }
}

/// The ranking after `rounds` rounds of `track`.
pub open spec fn ranking_outcome(
    track: Seq<Action>,
    roster: Seq<(Seq<char>, Seq<Action>)>,
    rounds: nat,
) -> Result<Seq<char>, QuestError> {
    match totals_outcome(track, roster, rounds) {
        Ok(totals) => Ok(ranking_text(totals)),
        Err(error) => Err(error),
    }
}

/// The ranking after `segments` rounds in which nothing overrides the
/// racers.
pub open spec fn perform_outcome(roster: Seq<(Seq<char>, Seq<Action>)>, segments: nat) -> Result<
    Seq<char>,
    QuestError,
> {
    ranking_outcome(open_ground(), roster, segments)
}

/// The ranking after `laps` laps of `track`: a contest needs a track, and
/// its rounds must be countable.
pub open spec fn race_ranking_outcome(
    track: Seq<Action>,
    roster: Seq<(Seq<char>, Seq<Action>)>,
    laps: nat,
) -> Result<Seq<char>, QuestError> {
    if track.len() == 0 {
        Err(QuestError::PreconditionViolation)
    } else if laps * track.len() > usize::MAX {
        Err(QuestError::ResourceExhaustion)
    } else {
        ranking_outcome(track, roster, laps * track.len())
    }
}

proof fn lemma_totals_error_persists(
    track: Seq<Action>,
    roster: Seq<(Seq<char>, Seq<Action>)>,
    rounds: nat,
    upto: int,
)
    requires
        0 <= upto <= roster.len(),
        totals_outcome(track, roster.take(upto), rounds) is Err,
    ensures
        totals_outcome(track, roster, rounds) == totals_outcome(track, roster.take(upto), rounds),
    decreases roster.len() - upto,
{
    if upto < roster.len() {
        assert(roster.take(upto + 1).drop_last() =~= roster.take(upto));
        lemma_totals_error_persists(track, roster, rounds, upto + 1);
    } else {
        assert(roster.take(upto) =~= roster);
    }
}

/// Simulates every racer of `data` and ranks them.
fn rank(track: &[Action], data: &Vec<(String, Vec<Action>)>, rounds: usize) -> (outcome: Result<
    String,
    QuestError,
>)
    ensures
        match outcome {
            Ok(text) => ranking_outcome(track@, racers(data@), rounds as nat) == Ok::<
                Seq<char>,
                QuestError,
            >(text@),
            Err(error) => ranking_outcome(track@, racers(data@), rounds as nat) == Err::<
                Seq<char>,
                QuestError,
            >(error),
        },
{
    let ghost roster = racers(data@);
    let mut scores: Vec<(String, usize)> = Vec::new();
    let mut at: usize = 0;
    proof {
        assert(standings(scores@) =~= Seq::empty());
    }
    while at < data.len()
        invariant
            at <= data.len(),
            roster == racers(data@),
            totals_outcome(track@, roster.take(at as int), rounds as nat) == Ok::<
                Seq<(Seq<char>, nat)>,
                QuestError,
            >(standings(scores@)),
        decreases data.len() - at,
    {
        proof {
            assert(roster.take(at + 1).drop_last() =~= roster.take(at as int));
            assert(roster.take(at + 1).last() == (data[at as int].0@, data[at as int].1@));
        }
        match simulate(track, data[at].1.as_slice(), rounds) {
            Ok(total) => {
                let ghost before = standings(scores@);
                scores.push((data[at].0.clone(), total));
                proof {
                    assert(standings(scores@) =~= before.push((data[at as int].0@, total as nat)));
                }
            },
            Err(error) => {
                proof {
                    lemma_totals_error_persists(track@, roster, rounds as nat, at + 1);
                }
                return Err(error);
            },
        }
        at += 1;
    }
    proof {
        assert(roster.take(at as int) =~= roster);
    }
    Ok(calc_ranking(&scores))
}

/// The ranking of the racers of `data` after `segments` rounds in which
/// nothing overrides them.
pub fn perform(data: &Vec<(String, Vec<Action>)>, segments: usize) -> (outcome: Result<
    String,
    QuestError,
>)
    ensures
        match outcome {
            Ok(text) => perform_outcome(racers(data@), segments as nat) == Ok::<
                Seq<char>,
                QuestError,
            >(text@),
            Err(error) => perform_outcome(racers(data@), segments as nat) == Err::<
                Seq<char>,
                QuestError,
            >(error),
        },
{
    let ground = [Action::Keep];
    proof {
        assert(ground@ =~= open_ground());
    }
    rank(ground.as_slice(), data, segments)
}

/// The ranking of the racers of `data` after `rounds` laps of
/// `racetrack`.
pub fn perform_with_racetrack(
    data: &Vec<(String, Vec<Action>)>,
    rounds: usize,
    racetrack: &[Action],
) -> (outcome: Result<String, QuestError>)
    ensures
        match outcome {
            Ok(text) => race_ranking_outcome(racetrack@, racers(data@), rounds as nat) == Ok::<
                Seq<char>,
                QuestError,
            >(text@),
            Err(error) => race_ranking_outcome(racetrack@, racers(data@), rounds as nat) == Err::<
                Seq<char>,
                QuestError,
            >(error),
        },
{
    if racetrack.len() == 0 {
        return Err(QuestError::PreconditionViolation);
    }
    match rounds.checked_mul(racetrack.len()) {
        Some(total_rounds) => rank(racetrack, data, total_rounds),
        None => Err(QuestError::ResourceExhaustion),
    }
}

} // verus!
