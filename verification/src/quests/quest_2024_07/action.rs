//! The three effects of a round, and how they meet a score.

use vstd::prelude::*;

verus! {

/// What a round does to a racer's score.
#[derive(Debug, Clone, Copy, PartialEq, Eq, Structural)]
pub enum Action {
    /// The score grows by one.
    Inc,
    /// The score shrinks by one, but never below zero.
    Dec,
    /// The score stays.
    Keep,
}

/// The action a character stands for: `+` increases, `-` decreases, and
/// every other character holds.
pub open spec fn action_of(ch: char) -> Action {
    if ch == '+' {
        Action::Inc
    } else if ch == '-' {
        Action::Dec
    } else {
        Action::Keep
    }
}

/// The action that takes effect when the track says `overridden` and the
/// racer says `action`: the track wins unless it holds.
pub open spec fn merged(overridden: Action, action: Action) -> Action {
    match overridden {
        Action::Keep => action,
        _ => overridden,
    }
}

/// The score that follows `score` under `action`.
pub open spec fn next_score(score: nat, action: Action) -> nat {
    match action {
        Action::Inc => score + 1,
        Action::Dec => if score == 0 {
            0
        } else {
            (score - 1) as nat
        },
        Action::Keep => score,
    }
}

/// The action that `ch` stands for.
pub fn parse_action(ch: char) -> (action: Action)
    ensures
        action == action_of(ch),
{
    match ch {
        '+' => Action::Inc,
        '-' => Action::Dec,
        _ => Action::Keep,
    }
}

/// The action that takes effect when the track says `overridden` and the
/// racer says `action`.
pub fn merged_action(overridden: Action, action: Action) -> (effective: Action)
    ensures
        effective == merged(overridden, action),
{
    match overridden {
        Action::Keep => action,
        _ => overridden,
    }
}

/// The score that follows `score` under `action`.
pub fn updated_score(score: usize, action: Action) -> (updated: usize)
    requires
        action == Action::Inc ==> score < usize::MAX,
    ensures
        updated == next_score(score as nat, action),
{
    match action {
        Action::Dec => score.saturating_sub(1),
        Action::Inc => score + 1,
        _ => score,
    }
}

/// The override rule only ever lets one of the two actions through, and the
/// racer's own action exactly when the track holds.
pub proof fn merged_picks_one(overridden: Action, action: Action)
    ensures
        merged(overridden, action) == overridden || merged(overridden, action) == action,
        merged(overridden, action) == action <==> (overridden == Action::Keep || overridden
            == action),
        merged(Action::Keep, action) == action,
{
}

} // verus!
