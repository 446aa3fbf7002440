//! Quest 1: potions for the battle for the farmlands.

use vstd::prelude::*;
use crate::common::numbers::{decimal, decimal_text};
use crate::common::text::chars_of;
use crate::quests::{Quest, QuestError, QuestInputLoader, Solution, first_of, second_of, text_of, third_of};

verus! {

/// The potions it takes to defeat a creature alone; nothing for a
/// character that is no creature.
pub open spec fn potion_of(ch: char) -> Option<nat> {
    if ch == 'A' {
        Some(0)
    } else if ch == 'B' {
        Some(1)
    } else if ch == 'C' {
        Some(3)
    } else if ch == 'D' {
        Some(5)
    } else {
        None
    }
}

/// The potions for the creatures of a group, each taken alone.
pub open spec fn potions_in(group: Seq<char>) -> nat
    decreases group.len(),
{
    if group.len() == 0 {
        0
    } else {
        potions_in(group.drop_last()) + match potion_of(group.last()) {
            Some(potions) => potions,
            None => 0,
        }
    }
}

/// The number of creatures in a group.
pub open spec fn creatures_in(group: Seq<char>) -> nat
    decreases group.len(),
{
    if group.len() == 0 {
        0
    } else {
        creatures_in(group.drop_last()) + if potion_of(group.last()) is Some {
            1nat
        } else {
            0nat
        }
    }
}

/// The extra potions for creatures that fight together: one more for each
/// of two, two more for each of three.
pub open spec fn bonus(creatures: nat) -> nat {
    if creatures == 2 {
        2
    } else if creatures == 3 {
        6
    } else {
        0
    }
}

/// The potions for a group that fights together.
pub open spec fn group_potions(group: Seq<char>) -> nat {
    potions_in(group) + bonus(creatures_in(group))
}

/// The potions for a text that is cut into groups of `enemies` places, the
/// last group possibly shorter.
pub open spec fn total_potions(text: Seq<char>, enemies: nat) -> nat
    decreases text.len(),
{
    if text.len() == 0 || enemies == 0 {
        0
    } else if text.len() <= enemies {
        group_potions(text)
    } else {
        group_potions(text.take(enemies as int)) + total_potions(text.skip(enemies as int), enemies)
    }
}

/// The potions as an answer: in decimal, if they fit a 32-bit integer.
pub open spec fn potion_outcome(text: Seq<char>, enemies: nat) -> Result<Seq<char>, QuestError> {
    if total_potions(text, enemies) <= i32::MAX {
        Ok(decimal(total_potions(text, enemies)))
    } else {
        Err(QuestError::ResourceExhaustion)
    }
}

/// The potions for one group.
fn group_amount(group: &[char], from: usize, to: usize) -> (amount: (u128, usize))
    requires
        from <= to <= group.len(),
    ensures
        amount.0 == potions_in(group@.subrange(from as int, to as int)),
        amount.1 == creatures_in(group@.subrange(from as int, to as int)),
        amount.0 <= 5 * (to - from),
        amount.1 <= to - from,
{
    let mut potions: u128 = 0;
    let mut creatures: usize = 0;
    let mut at: usize = from;
    proof {
        assert(group@.subrange(from as int, from as int) =~= Seq::<char>::empty());
    }
    while at < to
        invariant
            from <= at <= to <= group.len(),
            potions == potions_in(group@.subrange(from as int, at as int)),
            creatures == creatures_in(group@.subrange(from as int, at as int)),
            potions <= 5 * (at - from),
            creatures <= at - from,
        decreases to - at,
    {
        proof {
            assert(group@.subrange(from as int, at + 1).drop_last() =~= group@.subrange(
                from as int,
                at as int,
            ));
            assert(group@.subrange(from as int, at + 1).last() == group@[at as int]);
        }
        let ch = group[at];
        if ch == 'A' {
            creatures += 1;
        } else if ch == 'B' {
            potions += 1;
            creatures += 1;
        } else if ch == 'C' {
            potions += 3;
            creatures += 1;
        } else if ch == 'D' {
            potions += 5;
            creatures += 1;
        }
        at += 1;
    }
    (potions, creatures)
}

/// The potions for the creatures of `input`, which come in groups of
/// `enemies`, in decimal.
pub fn calculate_potion_amount(input: &str, enemies: usize) -> (outcome: Result<
    String,
    QuestError,
>)
    requires
        enemies > 0,
    ensures
        text_of(outcome) == potion_outcome(input@, enemies as nat),
{
    let text = chars_of(input);
    let mut total: u64 = 0;
    let mut at: usize = 0;
    proof {
        assert(text@.skip(0) =~= text@);
    }
    while at < text.len()
        invariant
            at <= text.len(),
            enemies > 0,
            text@ == input@,
            total <= i32::MAX,
            total + total_potions(text@.skip(at as int), enemies as nat) == total_potions(
                text@,
                enemies as nat,
            ),
        decreases text.len() - at,
    {
        let end = if text.len() - at <= enemies {
            text.len()
        } else {
            at + enemies
        };
        let (potions, creatures) = group_amount(text.as_slice(), at, end);
        let extra: u64 = if creatures == 2 {
            2
        } else if creatures == 3 {
            6
        } else {
            0
        };
        proof {
            let rest = text@.skip(at as int);
            if end == text.len() {
                assert(rest =~= text@.subrange(at as int, end as int));
                assert(text@.skip(end as int).len() == 0);
            } else {
                assert(rest.take(enemies as int) =~= text@.subrange(at as int, end as int));
                assert(rest.skip(enemies as int) =~= text@.skip(end as int));
            }
        }
        if potions > 0x7fff_ffff {
            return Err(QuestError::ResourceExhaustion);
        }
        let sum = total + potions as u64 + extra;
        if sum > 0x7fff_ffff {
            return Err(QuestError::ResourceExhaustion);
        }
        total = sum;
        at = end;
    }
    Ok(decimal_text(total))
}

/// The potion puzzle with its title, its inputs and its solver.
pub fn assemble_quest_1() -> (quest: Quest)
    ensures
        quest.title@ == "Quest 1: The Battle for the Farmlands"@,
        quest.input_loader@ == QuestInputLoader::with_quest_date_spec(2024, 1),
        forall|input: Seq<char>| quest.solution.first_answer(input) == #[trigger] first_of(1, input),
        forall|input: Seq<char>|
            quest.solution.second_answer(input) == #[trigger] second_of(1, input),
        forall|input: Seq<char>| quest.solution.third_answer(input) == #[trigger] third_of(1, input),
{
    let quest = Quest {
        title: "Quest 1: The Battle for the Farmlands".to_owned(),
        input_loader: QuestInputLoader::with_quest_date(2024, 1),
        solution: Box::new(Q1),
    };
    proof {
        assert forall|input: Seq<char>|
            quest.solution.first_answer(input) == #[trigger] first_of(1, input) by {
            assert(first_of(1, input) == Q1.first_answer(input));
        }
        assert forall|input: Seq<char>|
            quest.solution.second_answer(input) == #[trigger] second_of(1, input) by {
            assert(second_of(1, input) == Q1.second_answer(input));
        }
        assert forall|input: Seq<char>|
            quest.solution.third_answer(input) == #[trigger] third_of(1, input) by {
            assert(third_of(1, input) == Q1.third_answer(input));
        }
    }
    quest
}

/// The solver of the potion puzzle.
pub struct Q1;

impl Solution for Q1 {
    /// The potions for creatures that come alone.
    open spec fn first_answer(&self, input: Seq<char>) -> Result<Seq<char>, QuestError> {
        potion_outcome(input, 1)
    }

    /// The potions for creatures that come in pairs.
    open spec fn second_answer(&self, input: Seq<char>) -> Result<Seq<char>, QuestError> {
        potion_outcome(input, 2)
    }

    /// The potions for creatures that come in threes.
    open spec fn third_answer(&self, input: Seq<char>) -> Result<Seq<char>, QuestError> {
        potion_outcome(input, 3)
    }

    fn part_one(&self, input: &str) -> (answer: Result<String, QuestError>) {
        calculate_potion_amount(input, 1)
    }

    fn part_two(&self, input: &str) -> (answer: Result<String, QuestError>) {
        calculate_potion_amount(input, 2)
    }

    fn part_three(&self, input: &str) -> (answer: Result<String, QuestError>) {
        calculate_potion_amount(input, 3)
    }
}

} // verus!
