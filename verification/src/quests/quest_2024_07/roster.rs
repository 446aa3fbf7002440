//! Reading the racers: one line for each, a name and a list of actions.

use vstd::prelude::*;
use crate::common::text::{
    chars_of,
    lines_of,
    rows,
    split,
    split_once,
    split_once_spec,
    split_spec,
    string_of,
    trimmed_lines,
};
use crate::quests::QuestError;
use crate::quests::quest_2024_07::action::{Action, action_of, parse_action};

verus! {

/// The racers as values: each one's name and action list.
pub open spec fn racers(data: Seq<(String, Vec<Action>)>) -> Seq<(Seq<char>, Seq<Action>)> {
    data.map_values(|racer: (String, Vec<Action>)| (racer.0@, racer.1@))
}

/// The actions that the items of a list stand for: each item counts by its
/// first character.
pub open spec fn actions_of(items: Seq<Seq<char>>) -> Seq<Action> {
    items.map_values(|item: Seq<char>| action_of(item[0]))
}

/// No item is empty.
pub open spec fn all_filled(items: Seq<Seq<char>>) -> bool {
    forall|i: int| 0 <= i < items.len() ==> (#[trigger] items[i]).len() > 0
}

/// What a line says: the name before the first colon, and after it the
/// actions, separated by commas. A line without a colon, or with an empty
/// item in its list, says nothing.
pub open spec fn line_outcome(line: Seq<char>) -> Result<(Seq<char>, Seq<Action>), QuestError> {
    match split_once_spec(line, ':') {
        Some((name, list)) => if all_filled(split_spec(list, ',')) {
            Ok((name, actions_of(split_spec(list, ','))))
        } else {
            Err(QuestError::MalformedInput)
        },
        None => Err(QuestError::MalformedInput),
    }
}

/// The place of the racer called `name` in `roster`; the length of the
/// roster if there is none.
pub open spec fn find_name(roster: Seq<(Seq<char>, Seq<Action>)>, name: Seq<char>) -> nat
    decreases roster.len(),
{
    if roster.len() == 0 || roster[0].0 == name {
        0
    } else {
        1 + find_name(roster.drop_first(), name)
    }
}

/// `roster` with one more racer. A racer whose name is taken replaces the
/// one who had it, in the same place.
pub open spec fn enroll(
    roster: Seq<(Seq<char>, Seq<Action>)>,
    racer: (Seq<char>, Seq<Action>),
) -> Seq<(Seq<char>, Seq<Action>)> {
    let at = find_name(roster, racer.0) as int;
    if at < roster.len() {
        roster.update(at, racer)
    } else {
        roster.push(racer)
    }
}

/// The roster that `lines` spell out, one racer a line.
pub open spec fn roster_outcome(lines: Seq<Seq<char>>) -> Result<
    Seq<(Seq<char>, Seq<Action>)>,
    QuestError,
>
    decreases lines.len(),
{
    if lines.len() == 0 {
        Ok(Seq::empty())
    } else {
        match (roster_outcome(lines.drop_last()), line_outcome(lines.last())) {
            (Ok(roster), Ok(racer)) => Ok(enroll(roster, racer)),
            _ => Err(QuestError::MalformedInput),
        }
    }
}

/// The roster that a text spells out: its lines are trimmed, and blank
/// lines do not count.
pub open spec fn parse_outcome(input: Seq<char>) -> Result<
    Seq<(Seq<char>, Seq<Action>)>,
    QuestError,
> {
    roster_outcome(trimmed_lines(input))
}

/// No two racers of a roster share a name.
pub open spec fn has_distinct_names(roster: Seq<(Seq<char>, Seq<Action>)>) -> bool {
    forall|i: int, j: int| 0 <= i < j < roster.len() ==> roster[i].0 != roster[j].0
}

proof fn lemma_find_name(roster: Seq<(Seq<char>, Seq<Action>)>, name: Seq<char>)
    ensures
        find_name(roster, name) <= roster.len(),
        find_name(roster, name) < roster.len() ==> roster[find_name(roster, name) as int].0
            == name,
        forall|i: int| 0 <= i < find_name(roster, name) ==> (#[trigger] roster[i]).0 != name,
    decreases roster.len(),
{
    if roster.len() > 0 && roster[0].0 != name {
        lemma_find_name(roster.drop_first(), name);
        assert forall|i: int| 0 <= i < find_name(roster, name) implies (#[trigger] roster[i]).0
            != name by {
            if i > 0 {
                assert(roster.drop_first()[i - 1] == roster[i]);
            }
        }
    }
}

/// Enrolling keeps the names of a roster distinct, and every roster read
/// from lines has distinct names.
pub proof fn rosters_have_distinct_names(lines: Seq<Seq<char>>)
    ensures
        roster_outcome(lines) is Ok ==> has_distinct_names(roster_outcome(lines)->Ok_0),
    decreases lines.len(),
{
    if lines.len() > 0 && roster_outcome(lines) is Ok {
        rosters_have_distinct_names(lines.drop_last());
        let roster = roster_outcome(lines.drop_last())->Ok_0;
        let racer = line_outcome(lines.last())->Ok_0;
        lemma_find_name(roster, racer.0);
    }
}

proof fn lemma_roster_error_persists(lines: Seq<Seq<char>>, upto: int)
    requires
        0 <= upto <= lines.len(),
        roster_outcome(lines.take(upto)) is Err,
    ensures
        roster_outcome(lines) == Err::<Seq<(Seq<char>, Seq<Action>)>, QuestError>(
            QuestError::MalformedInput,
        ),
    decreases lines.len() - upto,
{
    if upto < lines.len() {
        assert(lines.take(upto + 1).drop_last() =~= lines.take(upto));
        lemma_roster_error_persists(lines, upto + 1);
    } else {
        assert(lines.take(upto) =~= lines);
    }
}

/// Reads one racer from the characters of a line.
fn parse_racer(line: &[char]) -> (outcome: Result<(String, Vec<Action>), QuestError>)
    ensures
        match outcome {
            Ok((name, actions)) => line_outcome(line@) == Ok::<
                (Seq<char>, Seq<Action>),
                QuestError,
            >((name@, actions@)),
            Err(error) => line_outcome(line@) == Err::<(Seq<char>, Seq<Action>), QuestError>(
                error,
            ),
        },
{
    match split_once(line, ':') {
        None => Err(QuestError::MalformedInput),
        Some((name, list)) => {
            let items = split(list.as_slice(), ',');
            let mut actions: Vec<Action> = Vec::new();
            let mut at: usize = 0;
            while at < items.len()
                invariant
                    at <= items.len(),
                    actions.len() == at,
                    split_once_spec(line@, ':') == Some((name@, list@)),
                    rows(items@) == split_spec(list@, ','),
                    forall|i: int| 0 <= i < at ==> (#[trigger] rows(items@)[i]).len() > 0,
                    forall|i: int|
                        0 <= i < at ==> #[trigger] actions[i] == action_of(rows(items@)[i][0]),
                decreases items.len() - at,
            {
                proof {
                    assert(rows(items@)[at as int] == items[at as int]@);
                }
                if items[at].len() == 0 {
                    proof {
                        assert(rows(items@)[at as int].len() == 0);
                        assert(!all_filled(rows(items@)));
                    }
                    return Err(QuestError::MalformedInput);
                }
                actions.push(parse_action(items[at][0]));
                at += 1;
            }
            proof {
                assert(actions@ =~= actions_of(rows(items@)));
            }
            Ok((string_of(name.as_slice()), actions))
        },
    }
}

/// The racer that a line names, with its actions.
pub fn parse_line(input: &str) -> (outcome: Result<(String, Vec<Action>), QuestError>)
    ensures
        match outcome {
            Ok((name, actions)) => line_outcome(input@) == Ok::<
                (Seq<char>, Seq<Action>),
                QuestError,
            >((name@, actions@)),
            Err(error) => line_outcome(input@) == Err::<(Seq<char>, Seq<Action>), QuestError>(
                error,
            ),
        },
{
    let line = chars_of(input);
    parse_racer(line.as_slice())
}

/// Puts a racer on the roster.
fn enroll_racer(roster: &mut Vec<(String, Vec<Action>)>, name: String, actions: Vec<Action>)
    ensures
        racers(final(roster)@) == enroll(racers(old(roster)@), (name@, actions@)),
{
    let ghost before = racers(roster@);
    let mut at: usize = 0;
    proof {
        assert(before.skip(0) =~= before);
    }
    while at < roster.len() && !(roster[at].0 == name)
        invariant
            at <= roster.len(),
            roster@ == old(roster)@,
            before == racers(roster@),
            find_name(before, name@) == at + find_name(before.skip(at as int), name@),
        decreases roster.len() - at,
    {
        proof {
            assert(before.skip(at as int)[0] == before[at as int]);
            assert(before.skip(at as int).drop_first() =~= before.skip(at + 1));
        }
        at += 1;
    }
    proof {
        if at < roster.len() {
            assert(before.skip(at as int)[0] == before[at as int]);
        }
    }
    if at < roster.len() {
        roster[at] = (name, actions);
        proof {
            assert(racers(roster@) =~= before.update(at as int, (name@, actions@)));
        }
    } else {
        roster.push((name, actions));
        proof {
            assert(racers(roster@) =~= before.push((name@, actions@)));
        }
    }
}

/// The racers that `input` names, one on each line.
pub fn parse(input: &str) -> (outcome: Result<Vec<(String, Vec<Action>)>, QuestError>)
    ensures
        match outcome {
            Ok(data) => parse_outcome(input@) == Ok::<Seq<(Seq<char>, Seq<Action>)>, QuestError>(
                racers(data@),
            ),
            Err(error) => parse_outcome(input@) == Err::<
                Seq<(Seq<char>, Seq<Action>)>,
                QuestError,
            >(error),
        },
{
    let chars = chars_of(input);
    let lines = lines_of(chars.as_slice());
    let mut roster: Vec<(String, Vec<Action>)> = Vec::new();
    let mut at: usize = 0;
    proof {
        assert(racers(roster@) =~= Seq::empty());
    }
    while at < lines.len()
        invariant
            at <= lines.len(),
            rows(lines@) == trimmed_lines(input@),
            roster_outcome(rows(lines@).take(at as int)) == Ok::<
                Seq<(Seq<char>, Seq<Action>)>,
                QuestError,
            >(racers(roster@)),
        decreases lines.len() - at,
    {
        proof {
            assert(rows(lines@).take(at + 1).drop_last() =~= rows(lines@).take(at as int));
            assert(rows(lines@).take(at + 1).last() == lines[at as int]@);
        }
        match parse_racer(lines[at].as_slice()) {
            Ok((name, actions)) => {
                enroll_racer(&mut roster, name, actions);
            },
            Err(error) => {
                proof {
                    lemma_roster_error_persists(rows(lines@), at + 1);
                }
                return Err(error);
            },
        }
        at += 1;
    }
    proof {
        assert(rows(lines@).take(at as int) =~= rows(lines@));
    }
    Ok(roster)
}

} // verus!
