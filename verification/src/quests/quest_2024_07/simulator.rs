//! The score simulator: a racer's action list run against a track.

use vstd::prelude::*;
use crate::quests::QuestError;
use crate::quests::quest_2024_07::action::{
    Action,
    merged,
    merged_action,
    next_score,
    updated_score,
};

verus! {

/// The score every racer starts with.
pub const INITIAL_SCORE: usize = 10;

/// The total before the first round. The starting score is not part of any
/// total: a total sums the scores reached after each round, no more.
pub const INITIAL_TOTAL: usize = 0;

/// The action in effect in round `round` (rounds count from zero): track
/// and program both repeat from their start once they run out.
pub open spec fn round_action(track: Seq<Action>, program: Seq<Action>, round: nat) -> Action
    recommends
        track.len() > 0,
        program.len() > 0,
{
    merged(track[(round % track.len()) as int], program[(round % program.len()) as int])
}

/// The score reached after `rounds` rounds.
pub open spec fn score_after(track: Seq<Action>, program: Seq<Action>, rounds: nat) -> nat
    decreases rounds,
{
    if rounds == 0 {
        INITIAL_SCORE as nat
    } else {
        let before = (rounds - 1) as nat;
        next_score(score_after(track, program, before), round_action(track, program, before))
    }
}

/// The sum of the scores reached after each of the first `rounds` rounds.
pub open spec fn cumulative_score(track: Seq<Action>, program: Seq<Action>, rounds: nat) -> nat
    decreases rounds,
{
    if rounds == 0 {
        INITIAL_TOTAL as nat
    } else {
        cumulative_score(track, program, (rounds - 1) as nat) + score_after(
            track,
            program,
            rounds,
        )
    }
}

/// The number of laps a race is run for.
pub const LAPS: usize = 2024;

/// What a simulation of `rounds` rounds answers: a race needs a track and a
/// program of at least one action each, and its total has to fit the
/// machine's integers.
pub open spec fn simulation_outcome(
    track: Seq<Action>,
    program: Seq<Action>,
    rounds: nat,
) -> Result<usize, QuestError> {
    if track.len() == 0 || program.len() == 0 {
        Err(QuestError::PreconditionViolation)
    } else if cumulative_score(track, program, rounds) > usize::MAX {
        Err(QuestError::ResourceExhaustion)
    } else {
        Ok(cumulative_score(track, program, rounds) as usize)
    }
}

/// What a race of `laps` laps answers: every lap takes as many rounds as
/// the track has cells, and the rounds must be countable.
pub open spec fn race_outcome(track: Seq<Action>, program: Seq<Action>, laps: nat) -> Result<
    usize,
    QuestError,
> {
    if track.len() == 0 || program.len() == 0 {
        Err(QuestError::PreconditionViolation)
    } else if laps * track.len() > usize::MAX {
        Err(QuestError::ResourceExhaustion)
    } else {
        simulation_outcome(track, program, laps * track.len())
    }
}

/// The running score never leaves the band that one step per round allows
/// around the starting score, and never falls below zero.
pub proof fn score_stays_in_bounds(track: Seq<Action>, program: Seq<Action>, rounds: nat)
    ensures
        0 <= score_after(track, program, rounds) <= INITIAL_SCORE + rounds,
        score_after(track, program, rounds) >= INITIAL_SCORE - rounds,
    decreases rounds,
{
    if rounds > 0 {
        score_stays_in_bounds(track, program, (rounds - 1) as nat);
    }
}

/// A total never shrinks as rounds are added.
pub proof fn cumulative_score_grows(
    track: Seq<Action>,
    program: Seq<Action>,
    earlier: nat,
    later: nat,
)
    requires
        earlier <= later,
    ensures
        cumulative_score(track, program, earlier) <= cumulative_score(track, program, later),
    decreases later,
{
    if earlier < later {
        cumulative_score_grows(track, program, earlier, (later - 1) as nat);
    }
}

/// A total is at most what a racer would collect by gaining a point in
/// every round.
pub proof fn cumulative_score_is_bounded(track: Seq<Action>, program: Seq<Action>, rounds: nat)
    ensures
        cumulative_score(track, program, rounds) <= rounds * (INITIAL_SCORE + rounds),
    decreases rounds,
{
    if rounds > 0 {
        let before = (rounds - 1) as nat;
        cumulative_score_is_bounded(track, program, before);
        score_stays_in_bounds(track, program, rounds);
        assert(before * (INITIAL_SCORE + before) + (INITIAL_SCORE + rounds) <= rounds * (
        INITIAL_SCORE + rounds)) by (nonlinear_arith)
            requires
                before + 1 == rounds,
        ;
    }
}

/// Simulations are functions of their inputs: equal tracks, programs and
/// round counts give equal scores and equal totals.
pub proof fn simulation_is_deterministic(
    track: Seq<Action>,
    program: Seq<Action>,
    rounds: nat,
    same_track: Seq<Action>,
    same_program: Seq<Action>,
    same_rounds: nat,
)
    requires
        track =~= same_track,
        program =~= same_program,
        rounds == same_rounds,
    ensures
        score_after(track, program, rounds) == score_after(same_track, same_program, same_rounds),
        cumulative_score(track, program, rounds) == cumulative_score(
            same_track,
            same_program,
            same_rounds,
        ),
        simulation_outcome(track, program, rounds) == simulation_outcome(
            same_track,
            same_program,
            same_rounds,
        ),
{
}

/// The state of one run of the simulator.
#[derive(Debug, Clone, Copy, PartialEq, Eq, Structural)]
pub enum RaceState {
    /// `round` rounds have been run; the score stands at `score`, and the
    /// scores reached so far sum up to `cumulative`.
    Running { round: usize, score: usize, cumulative: usize },
    /// The run is over, with this total.
    Finished { cumulative: usize },
}

/// The state in which every run starts.
pub open spec fn initial_state() -> RaceState {
    RaceState::Running { round: 0, score: INITIAL_SCORE, cumulative: INITIAL_TOTAL }
}

/// The state that follows `state` in a run of `total_rounds` rounds: a run
/// that has rounds left runs one more, a run that has none is finished, and
/// a finished run stays finished. There is no next state where the total
/// would leave the machine's integers.
pub open spec fn next_state(
    state: RaceState,
    track: Seq<Action>,
    program: Seq<Action>,
    total_rounds: nat,
) -> Result<RaceState, QuestError> {
    match state {
        RaceState::Finished { cumulative } => Ok(state),
        RaceState::Running { round, score, cumulative } => if round >= total_rounds {
            Ok(RaceState::Finished { cumulative })
        } else {
            let reached = next_score(score as nat, round_action(track, program, round as nat));
            if cumulative + reached > usize::MAX {
                Err(QuestError::ResourceExhaustion)
            } else {
                Ok(
                    RaceState::Running {
                        round: (round + 1) as usize,
                        score: reached as usize,
                        cumulative: (cumulative + reached) as usize,
                    },
                )
            }
        },
    }
}

/// `state` is what a run of `track` and `program` is in after the rounds
/// it counts.
pub open spec fn is_state_of(state: RaceState, track: Seq<Action>, program: Seq<Action>) -> bool {
    match state {
        RaceState::Running { round, score, cumulative } => score == score_after(
            track,
            program,
            round as nat,
        ) && cumulative == cumulative_score(track, program, round as nat),
        RaceState::Finished { cumulative } => true,
    }
}

/// The first state of a run.
pub fn start_race() -> (state: RaceState)
    ensures
        state == initial_state(),
{
    RaceState::Running { round: 0, score: INITIAL_SCORE, cumulative: INITIAL_TOTAL }
}

/// One transition of a run of `total_rounds` rounds.
pub fn advance(state: RaceState, track: &[Action], program: &[Action], total_rounds: usize) -> (next:
    Result<RaceState, QuestError>)
    requires
        track.len() > 0,
        program.len() > 0,
    ensures
        next == next_state(state, track@, program@, total_rounds as nat),
{
    match state {
        RaceState::Finished { cumulative } => Ok(state),
        RaceState::Running { round, score, cumulative } => {
            if round >= total_rounds {
                return Ok(RaceState::Finished { cumulative });
            }
            let action = merged_action(track[round % track.len()], program[round % program.len()]);
            if action == Action::Inc && score == usize::MAX {
                return Err(QuestError::ResourceExhaustion);
            }
            let reached = updated_score(score, action);
            match cumulative.checked_add(reached) {
                Some(sum) => Ok(RaceState::Running { round: round + 1, score: reached, cumulative: sum }),
                None => Err(QuestError::ResourceExhaustion),
            }
        },
    }
}

/// A state that belongs to a run leads to a state that belongs to it.
pub proof fn next_state_follows_the_run(
    state: RaceState,
    track: Seq<Action>,
    program: Seq<Action>,
    total_rounds: nat,
)
    requires
        is_state_of(state, track, program),
        state is Running ==> state->round <= total_rounds,
        total_rounds <= usize::MAX,
    ensures
        match next_state(state, track, program, total_rounds) {
            Ok(RaceState::Running { round, score, cumulative }) => {
                &&& state is Running
                &&& round == state->round + 1
                &&& round <= total_rounds
                &&& score == score_after(track, program, round as nat)
                &&& cumulative == cumulative_score(track, program, round as nat)
            },
            Ok(RaceState::Finished { cumulative }) => state is Running ==> cumulative
                == cumulative_score(track, program, total_rounds),
            Err(error) => cumulative_score(track, program, total_rounds) > usize::MAX,
        },
{
    if let RaceState::Running { round, score, cumulative } = state {
        if round < total_rounds {
            cumulative_score_grows(track, program, (round + 1) as nat, total_rounds);
        }
    }
}

/// The place in a cycle of `len` places that follows the place of
/// `round`.
proof fn lemma_next_place(round: nat, len: nat)
    requires
        len > 0,
    ensures
        (round + 1) % len == if round % len + 1 == len {
            0
        } else {
            round % len + 1
        },
{
    let q = (round / len) as int;
    let r = (round % len) as int;
    vstd::arithmetic::div_mod::lemma_fundamental_div_mod(round as int, len as int);
    if r + 1 == len {
        assert(round + 1 == (q + 1) * len) by (nonlinear_arith)
            requires
                round == len * q + r,
                r + 1 == len,
        ;
        vstd::arithmetic::div_mod::lemma_fundamental_div_mod_converse(
            round as int + 1,
            len as int,
            q + 1,
            0,
        );
    } else {
        assert(round + 1 == q * len + (r + 1)) by (nonlinear_arith)
            requires
                round == len * q + r,
        ;
        vstd::arithmetic::div_mod::lemma_fundamental_div_mod_converse(
            round as int + 1,
            len as int,
            q,
            r + 1,
        );
    }
}

/// Runs `program` against `track` for `rounds` rounds and answers the sum
/// of the scores reached after each round.
pub fn simulate(track: &[Action], program: &[Action], rounds: usize) -> (outcome: Result<
    usize,
    QuestError,
>)
    ensures
        outcome == simulation_outcome(track@, program@, rounds as nat),
{
    if track.len() == 0 || program.len() == 0 {
        return Err(QuestError::PreconditionViolation);
    }
    let mut round: usize = 0;
    let mut track_at: usize = 0;
    let mut program_at: usize = 0;
    let mut score: usize = INITIAL_SCORE;
    let mut total: usize = INITIAL_TOTAL;
    while round < rounds
        invariant
            track.len() > 0,
            program.len() > 0,
            round <= rounds,
            track_at == round % track.len(),
            program_at == round % program.len(),
            score == score_after(track@, program@, round as nat),
            total == cumulative_score(track@, program@, round as nat),
        decreases rounds - round,
    {
        let action = merged_action(track[track_at], program[program_at]);
        proof {
            cumulative_score_grows(track@, program@, (round + 1) as nat, rounds as nat);
            lemma_next_place(round as nat, track.len() as nat);
            lemma_next_place(round as nat, program.len() as nat);
        }
        if action == Action::Inc && score == usize::MAX {
            return Err(QuestError::ResourceExhaustion);
        }
        score = updated_score(score, action);
        match total.checked_add(score) {
            Some(sum) => {
                total = sum;
            },
            None => {
                return Err(QuestError::ResourceExhaustion);
            },
        }
        round += 1;
        track_at += 1;
        if track_at == track.len() {
            track_at = 0;
        }
        program_at += 1;
        if program_at == program.len() {
            program_at = 0;
        }
    }
    Ok(total)
}

/// Runs `program` for `laps` laps of `track`.
pub fn race(track: &[Action], program: &[Action], laps: usize) -> (outcome: Result<
    usize,
    QuestError,
>)
    ensures
        outcome == race_outcome(track@, program@, laps as nat),
{
    if track.len() == 0 || program.len() == 0 {
        return Err(QuestError::PreconditionViolation);
    }
    match laps.checked_mul(track.len()) {
        Some(rounds) => simulate(track, program, rounds),
        None => Err(QuestError::ResourceExhaustion),
    }
}

/// The total of `params` over the full race of `LAPS` laps of `racetrack`.
pub fn ranking_with_racetrack(params: &[Action], racetrack: &[Action]) -> (outcome: Result<
    usize,
    QuestError,
>)
    ensures
        outcome == race_outcome(racetrack@, params@, LAPS as nat),
{
    race(racetrack, params, LAPS)
}

} // verus!
