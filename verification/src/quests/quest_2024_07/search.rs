//! The plan search: which orderings of a fixed stock of actions beat a
//! given total.

use std::collections::HashSet;
use vstd::prelude::*;
use vstd::set_lib::lemma_set_disjoint_lens;
use crate::quests::QuestError;
use crate::quests::quest_2024_07::action::Action;
use crate::quests::quest_2024_07::simulator::{LAPS, cumulative_score, simulate};

verus! {

/// The longest plan the search takes on.
pub const MAX_PLAN_LENGTH: usize = 40;

/// The number of plans the search of the full race may try.
pub const PLAN_BUDGET: usize = 10000;

/// What a search found.
#[derive(Debug, Clone, Copy, PartialEq, Eq, Structural)]
pub struct SearchReport {
    /// How many plans beat the total to beat.
    pub winning: usize,
    /// How many plans were simulated.
    pub simulated: usize,
}

/// How often `action` occurs in `plan`.
pub open spec fn occurrences(plan: Seq<Action>, action: Action) -> nat
    decreases plan.len(),
{
    if plan.len() == 0 {
        0
    } else {
        (if plan[0] == action {
            1nat
        } else {
            0nat
        }) + occurrences(plan.drop_first(), action)
    }
}

/// `plan` orders a stock of `pluses` increases, `minuses` decreases and
/// `equals` holds: it uses each of them, and nothing else.
pub open spec fn is_plan(plan: Seq<Action>, pluses: nat, minuses: nat, equals: nat) -> bool {
    &&& occurrences(plan, Action::Inc) == pluses
    &&& occurrences(plan, Action::Dec) == minuses
    &&& occurrences(plan, Action::Keep) == equals
}

/// All the plans for a stock.
pub open spec fn all_plans(pluses: nat, minuses: nat, equals: nat) -> Set<Seq<Action>> {
    Set::new(|plan: Seq<Action>| is_plan(plan, pluses, minuses, equals))
}

/// The plans for a stock whose total over `rounds` rounds of `track` is
/// strictly above `base`.
pub open spec fn winning_plans(
    track: Seq<Action>,
    pluses: nat,
    minuses: nat,
    equals: nat,
    rounds: nat,
    base: int,
) -> Set<Seq<Action>> {
    Set::new(
        |plan: Seq<Action>|
            is_plan(plan, pluses, minuses, equals) && cumulative_score(track, plan, rounds) > base,
    )
}

/// The number of ways to order a stock, by the first action chosen.
pub open spec fn arrangements(pluses: nat, minuses: nat, equals: nat) -> nat
    decreases pluses + minuses + equals,
{
    if pluses + minuses + equals == 0 {
        1
    } else {
        (if pluses > 0 {
            arrangements((pluses - 1) as nat, minuses, equals)
        } else {
            0
        }) + (if minuses > 0 {
            arrangements(pluses, (minuses - 1) as nat, equals)
        } else {
            0
        }) + (if equals > 0 {
            arrangements(pluses, minuses, (equals - 1) as nat)
        } else {
            0
        })
    }
}

/// The product of the numbers from one to `n`.
pub open spec fn factorial(n: nat) -> nat
    decreases n,
{
    if n == 0 {
        1
    } else {
        n * factorial((n - 1) as nat)
    }
}

/// What a search answers. It needs a track and a stock of at least one
/// action. It gives up on a plan longer than `MAX_PLAN_LENGTH`, on a race
/// whose rounds cannot be counted, and on a stock with more orderings than
/// `budget`. Otherwise it has simulated every ordering once and counted
/// those that win.
pub open spec fn search_outcome(
    track: Seq<Action>,
    pluses: nat,
    minuses: nat,
    equals: nat,
    base: nat,
    laps: nat,
    budget: nat,
) -> Result<SearchReport, QuestError> {
    if track.len() == 0 || pluses + minuses + equals == 0 {
        Err(QuestError::PreconditionViolation)
    } else if pluses + minuses + equals > MAX_PLAN_LENGTH || laps * track.len() > usize::MAX
        || arrangements(pluses, minuses, equals) > budget {
        Err(QuestError::ResourceExhaustion)
    } else {
        Ok(
            SearchReport {
                winning: winning_plans(
                    track,
                    pluses,
                    minuses,
                    equals,
                    laps * track.len(),
                    base as int,
                ).len() as usize,
                simulated: arrangements(pluses, minuses, equals) as usize,
            },
        )
    }
}

/// The digit that stands for an action in a plan's code.
pub open spec fn action_digit(action: Action) -> nat {
    match action {
        Action::Inc => 0,
        Action::Dec => 1,
        Action::Keep => 2,
    }
}

/// The code of a plan: its actions read as the digits of a number in base
/// three, the first action leading.
pub open spec fn plan_code(plan: Seq<Action>) -> nat
    decreases plan.len(),
{
    if plan.len() == 0 {
        0
    } else {
        plan_code(plan.drop_last()) * 3 + action_digit(plan.last())
    }
}

/// The character that stands for an action in a plan's text.
pub open spec fn action_symbol(action: Action) -> char {
    match action {
        Action::Inc => '+',
        Action::Dec => '-',
        Action::Keep => '=',
    }
}

/// Three to the power of `n`.
pub open spec fn pow3(n: nat) -> nat
    decreases n,
{
    if n == 0 {
        1
    } else {
        3 * pow3((n - 1) as nat)
    }
}

// ---------------------------------------------------------------------
// Counting plans
// ---------------------------------------------------------------------
/// `plan` starts with `prefix` and goes on with an ordering of the stock.
spec fn completes(
    plan: Seq<Action>,
    prefix: Seq<Action>,
    pluses: nat,
    minuses: nat,
    equals: nat,
) -> bool {
    &&& plan.len() >= prefix.len()
    &&& plan.take(prefix.len() as int) == prefix
    &&& is_plan(plan.skip(prefix.len() as int), pluses, minuses, equals)
}

/// The completions of `prefix` that beat `base`.
spec fn winners_from(
    track: Seq<Action>,
    rounds: nat,
    base: int,
    prefix: Seq<Action>,
    pluses: nat,
    minuses: nat,
    equals: nat,
) -> Set<Seq<Action>> {
    Set::new(
        |plan: Seq<Action>|
            completes(plan, prefix, pluses, minuses, equals) && cumulative_score(
                track,
                plan,
                rounds,
            ) > base,
    )
}

/// The number of completions of `prefix` that beat `base`, by the next
/// action chosen.
spec fn wins_from(
    track: Seq<Action>,
    rounds: nat,
    base: int,
    prefix: Seq<Action>,
    pluses: nat,
    minuses: nat,
    equals: nat,
) -> nat
    decreases pluses + minuses + equals,
{
    if pluses + minuses + equals == 0 {
        if cumulative_score(track, prefix, rounds) > base {
            1
        } else {
            0
        }
    } else {
        (if pluses > 0 {
            wins_from(
                track,
                rounds,
                base,
                prefix.push(Action::Inc),
                (pluses - 1) as nat,
                minuses,
                equals,
            )
        } else {
            0
        }) + (if minuses > 0 {
            wins_from(
                track,
                rounds,
                base,
                prefix.push(Action::Dec),
                pluses,
                (minuses - 1) as nat,
                equals,
            )
        } else {
            0
        }) + (if equals > 0 {
            wins_from(
                track,
                rounds,
                base,
                prefix.push(Action::Keep),
                pluses,
                minuses,
                (equals - 1) as nat,
            )
        } else {
            0
        })
    }
}

proof fn lemma_occurrences_fill(plan: Seq<Action>)
    ensures
        occurrences(plan, Action::Inc) + occurrences(plan, Action::Dec) + occurrences(
            plan,
            Action::Keep,
        ) == plan.len(),
    decreases plan.len(),
{
    if plan.len() > 0 {
        lemma_occurrences_fill(plan.drop_first());
    }
}

/// A completion of `prefix` is `prefix` itself once the stock is used up,
/// and otherwise a completion of `prefix` with one more action from the
/// stock.
proof fn lemma_completes_step(
    plan: Seq<Action>,
    prefix: Seq<Action>,
    pluses: nat,
    minuses: nat,
    equals: nat,
)
    ensures
        pluses + minuses + equals == 0 ==> (completes(plan, prefix, pluses, minuses, equals)
            <==> plan == prefix),
        pluses + minuses + equals > 0 ==> (completes(plan, prefix, pluses, minuses, equals) <==> ({
            ||| pluses > 0 && completes(
                plan,
                prefix.push(Action::Inc),
                (pluses - 1) as nat,
                minuses,
                equals,
            )
            ||| minuses > 0 && completes(
                plan,
                prefix.push(Action::Dec),
                pluses,
                (minuses - 1) as nat,
                equals,
            )
            ||| equals > 0 && completes(
                plan,
                prefix.push(Action::Keep),
                pluses,
                minuses,
                (equals - 1) as nat,
            )
        })),
{
    let n = prefix.len() as int;
    if plan.len() >= n {
        let rest = plan.skip(n);
        lemma_occurrences_fill(rest);
        if rest.len() == 0 {
            assert(plan.take(n) =~= plan);
        } else {
            assert(rest[0] == plan[n]);
            assert(rest.drop_first() =~= plan.skip(n + 1));
            assert(plan.take(n + 1) =~= plan.take(n).push(plan[n]));
            assert(forall|action: Action|
                plan.take(n + 1) == prefix.push(action) ==> plan.take(n) =~= prefix.push(
                    action,
                ).drop_last() && plan[n] == prefix.push(action)[n]);
            assert(forall|action: Action| #[trigger] prefix.push(action).drop_last() =~= prefix);
        }
    } else {
        assert(plan != prefix);
    }
}

/// The recursion counts the set: there are exactly `wins_from` winning
/// completions of `prefix`.
proof fn lemma_winners_counted(
    track: Seq<Action>,
    rounds: nat,
    base: int,
    prefix: Seq<Action>,
    pluses: nat,
    minuses: nat,
    equals: nat,
)
    ensures
        winners_from(track, rounds, base, prefix, pluses, minuses, equals).finite(),
        winners_from(track, rounds, base, prefix, pluses, minuses, equals).len() == wins_from(
            track,
            rounds,
            base,
            prefix,
            pluses,
            minuses,
            equals,
        ),
    decreases pluses + minuses + equals,
{
    let all = winners_from(track, rounds, base, prefix, pluses, minuses, equals);
    assert forall|plan: Seq<Action>|
        pluses + minuses + equals == 0 implies (#[trigger] completes(
        plan,
        prefix,
        pluses,
        minuses,
        equals,
    ) <==> plan == prefix) by {
        lemma_completes_step(plan, prefix, pluses, minuses, equals);
    }
    if pluses + minuses + equals == 0 {
        if cumulative_score(track, prefix, rounds) > base {
            assert(all =~= set![prefix]);
        } else {
            assert(all =~= Set::<Seq<Action>>::empty());
        }
    } else {
        let with_inc = if pluses > 0 {
            winners_from(
                track,
                rounds,
                base,
                prefix.push(Action::Inc),
                (pluses - 1) as nat,
                minuses,
                equals,
            )
        } else {
            Set::empty()
        };
        let with_dec = if minuses > 0 {
            winners_from(
                track,
                rounds,
                base,
                prefix.push(Action::Dec),
                pluses,
                (minuses - 1) as nat,
                equals,
            )
        } else {
            Set::empty()
        };
        let with_keep = if equals > 0 {
            winners_from(
                track,
                rounds,
                base,
                prefix.push(Action::Keep),
                pluses,
                minuses,
                (equals - 1) as nat,
            )
        } else {
            Set::empty()
        };
        if pluses > 0 {
            lemma_winners_counted(
                track,
                rounds,
                base,
                prefix.push(Action::Inc),
                (pluses - 1) as nat,
                minuses,
                equals,
            );
        }
        if minuses > 0 {
            lemma_winners_counted(
                track,
                rounds,
                base,
                prefix.push(Action::Dec),
                pluses,
                (minuses - 1) as nat,
                equals,
            );
        }
        if equals > 0 {
            lemma_winners_counted(
                track,
                rounds,
                base,
                prefix.push(Action::Keep),
                pluses,
                minuses,
                (equals - 1) as nat,
            );
        }
        let n = prefix.len() as int;
        assert forall|plan: Seq<Action>|
            all.contains(plan) <==> with_inc.contains(plan) || with_dec.contains(plan)
                || with_keep.contains(plan) by {
            lemma_completes_step(plan, prefix, pluses, minuses, equals);
        }
        assert(all =~= with_inc + with_dec + with_keep);
        assert forall|plan: Seq<Action>| with_inc.contains(plan) implies plan.len() > n && plan[n]
            == Action::Inc by {
            assert(plan.take(n + 1)[n] == prefix.push(Action::Inc)[n]);
        }
        assert forall|plan: Seq<Action>| with_dec.contains(plan) implies plan.len() > n && plan[n]
            == Action::Dec by {
            assert(plan.take(n + 1)[n] == prefix.push(Action::Dec)[n]);
        }
        assert forall|plan: Seq<Action>| with_keep.contains(plan) implies plan.len() > n
            && plan[n] == Action::Keep by {
            assert(plan.take(n + 1)[n] == prefix.push(Action::Keep)[n]);
        }
        assert(with_inc.disjoint(with_dec));
        assert((with_inc + with_dec).disjoint(with_keep));
        lemma_set_disjoint_lens(with_inc, with_dec);
        lemma_set_disjoint_lens(with_inc + with_dec, with_keep);
    }
}

/// With nothing to beat, every completion wins.
proof fn lemma_wins_from_without_base(
    track: Seq<Action>,
    rounds: nat,
    prefix: Seq<Action>,
    pluses: nat,
    minuses: nat,
    equals: nat,
)
    ensures
        wins_from(track, rounds, -1, prefix, pluses, minuses, equals) == arrangements(
            pluses,
            minuses,
            equals,
        ),
    decreases pluses + minuses + equals,
{
    if pluses > 0 {
        lemma_wins_from_without_base(
            track,
            rounds,
            prefix.push(Action::Inc),
            (pluses - 1) as nat,
            minuses,
            equals,
        );
    }
    if minuses > 0 {
        lemma_wins_from_without_base(
            track,
            rounds,
            prefix.push(Action::Dec),
            pluses,
            (minuses - 1) as nat,
            equals,
        );
    }
    if equals > 0 {
        lemma_wins_from_without_base(
            track,
            rounds,
            prefix.push(Action::Keep),
            pluses,
            minuses,
            (equals - 1) as nat,
        );
    }
}

proof fn lemma_wins_from_at_most_arrangements(
    track: Seq<Action>,
    rounds: nat,
    base: int,
    prefix: Seq<Action>,
    pluses: nat,
    minuses: nat,
    equals: nat,
)
    ensures
        wins_from(track, rounds, base, prefix, pluses, minuses, equals) <= arrangements(
            pluses,
            minuses,
            equals,
        ),
    decreases pluses + minuses + equals,
{
    if pluses > 0 {
        lemma_wins_from_at_most_arrangements(
            track,
            rounds,
            base,
            prefix.push(Action::Inc),
            (pluses - 1) as nat,
            minuses,
            equals,
        );
    }
    if minuses > 0 {
        lemma_wins_from_at_most_arrangements(
            track,
            rounds,
            base,
            prefix.push(Action::Dec),
            pluses,
            (minuses - 1) as nat,
            equals,
        );
    }
    if equals > 0 {
        lemma_wins_from_at_most_arrangements(
            track,
            rounds,
            base,
            prefix.push(Action::Keep),
            pluses,
            minuses,
            (equals - 1) as nat,
        );
    }
}

proof fn lemma_winners_from_start(
    track: Seq<Action>,
    rounds: nat,
    base: int,
    pluses: nat,
    minuses: nat,
    equals: nat,
)
    ensures
        winners_from(track, rounds, base, Seq::empty(), pluses, minuses, equals) == winning_plans(
            track,
            pluses,
            minuses,
            equals,
            rounds,
            base,
        ),
{
    let from_start = winners_from(track, rounds, base, Seq::empty(), pluses, minuses, equals);
    let winning = winning_plans(track, pluses, minuses, equals, rounds, base);
    assert forall|plan: Seq<Action>| from_start.contains(plan) <==> winning.contains(plan) by {
        assert(plan.skip(0) =~= plan);
        assert(plan.take(0) =~= Seq::<Action>::empty());
    }
    assert(from_start =~= winning);
}

// ---------------------------------------------------------------------
// Laws
// ---------------------------------------------------------------------
/// A plan is as long as its stock is large.
pub proof fn plan_has_stock_length(plan: Seq<Action>, pluses: nat, minuses: nat, equals: nat)
    requires
        is_plan(plan, pluses, minuses, equals),
    ensures
        plan.len() == pluses + minuses + equals,
{
    lemma_occurrences_fill(plan);
}

/// The orderings of a stock number `(p + m + k)! / (p! * m! * k!)`.
pub proof fn arrangements_is_multinomial(pluses: nat, minuses: nat, equals: nat)
    ensures
        arrangements(pluses, minuses, equals) * (factorial(pluses) * factorial(minuses)
            * factorial(equals)) == factorial(pluses + minuses + equals),
    decreases pluses + minuses + equals,
{
    let n = pluses + minuses + equals;
    if n > 0 {
        let below = factorial((n - 1) as nat);
        let fp = factorial(pluses);
        let fm = factorial(minuses);
        let fk = factorial(equals);
        let tp = if pluses > 0 {
            arrangements((pluses - 1) as nat, minuses, equals)
        } else {
            0
        };
        let tm = if minuses > 0 {
            arrangements(pluses, (minuses - 1) as nat, equals)
        } else {
            0
        };
        let tk = if equals > 0 {
            arrangements(pluses, minuses, (equals - 1) as nat)
        } else {
            0
        };
        assert(tp * (fp * fm * fk) == pluses * below) by {
            if pluses > 0 {
                arrangements_is_multinomial((pluses - 1) as nat, minuses, equals);
                let fq = factorial((pluses - 1) as nat);
                assert(tp * ((pluses * fq) * fm * fk) == pluses * (tp * (fq * fm * fk)))
                    by (nonlinear_arith);
            } else {
                assert(tp * (fp * fm * fk) == 0) by (nonlinear_arith)
                    requires
                        tp == 0,
                ;
                assert(pluses * below == 0) by (nonlinear_arith)
                    requires
                        pluses == 0,
                ;
            }
        }
        assert(tm * (fp * fm * fk) == minuses * below) by {
            if minuses > 0 {
                arrangements_is_multinomial(pluses, (minuses - 1) as nat, equals);
                let fq = factorial((minuses - 1) as nat);
                assert(tm * (fp * (minuses * fq) * fk) == minuses * (tm * (fp * fq * fk)))
                    by (nonlinear_arith);
            } else {
                assert(tm * (fp * fm * fk) == 0) by (nonlinear_arith)
                    requires
                        tm == 0,
                ;
                assert(minuses * below == 0) by (nonlinear_arith)
                    requires
                        minuses == 0,
                ;
            }
        }
        assert(tk * (fp * fm * fk) == equals * below) by {
            if equals > 0 {
                arrangements_is_multinomial(pluses, minuses, (equals - 1) as nat);
                let fq = factorial((equals - 1) as nat);
                assert(tk * (fp * fm * (equals * fq)) == equals * (tk * (fp * fm * fq)))
                    by (nonlinear_arith);
            } else {
                assert(tk * (fp * fm * fk) == 0) by (nonlinear_arith)
                    requires
                        tk == 0,
                ;
                assert(equals * below == 0) by (nonlinear_arith)
                    requires
                        equals == 0,
                ;
            }
        }
        assert((tp + tm + tk) * (fp * fm * fk) == (pluses + minuses + equals) * below)
            by (nonlinear_arith)
            requires
                tp * (fp * fm * fk) == pluses * below,
                tm * (fp * fm * fk) == minuses * below,
                tk * (fp * fm * fk) == equals * below,
        ;
    } else {
        assert(1 * (1 * 1 * 1) == 1) by (nonlinear_arith);
    }
}

/// No duplicates, no omissions: the distinct orderings of a stock are
/// finitely many, and `arrangements` is their number.
pub proof fn plans_are_counted(pluses: nat, minuses: nat, equals: nat)
    ensures
        all_plans(pluses, minuses, equals).finite(),
        all_plans(pluses, minuses, equals).len() == arrangements(pluses, minuses, equals),
{
    let track = Seq::<Action>::empty();
    lemma_winners_counted(track, 0, -1, Seq::empty(), pluses, minuses, equals);
    lemma_wins_from_without_base(track, 0, Seq::empty(), pluses, minuses, equals);
    lemma_winners_from_start(track, 0, -1, pluses, minuses, equals);
    assert(winning_plans(track, pluses, minuses, equals, 0, -1) =~= all_plans(
        pluses,
        minuses,
        equals,
    ));
}

/// The winning plans are finitely many, at most as many as there are
/// orderings of the stock.
pub proof fn winning_plans_are_few(
    track: Seq<Action>,
    pluses: nat,
    minuses: nat,
    equals: nat,
    rounds: nat,
    base: int,
)
    ensures
        winning_plans(track, pluses, minuses, equals, rounds, base).finite(),
        winning_plans(track, pluses, minuses, equals, rounds, base).len() <= arrangements(
            pluses,
            minuses,
            equals,
        ),
{
    lemma_winners_counted(track, rounds, base, Seq::empty(), pluses, minuses, equals);
    lemma_wins_from_at_most_arrangements(
        track,
        rounds,
        base,
        Seq::empty(),
        pluses,
        minuses,
        equals,
    );
    lemma_winners_from_start(track, rounds, base, pluses, minuses, equals);
}

/// Plans of one length with one code are one plan.
pub proof fn plan_code_is_canonical(plan: Seq<Action>, other: Seq<Action>)
    requires
        plan.len() == other.len(),
        plan_code(plan) == plan_code(other),
    ensures
        plan == other,
    decreases plan.len(),
{
    if plan.len() > 0 {
        assert(action_digit(plan.last()) < 3 && action_digit(other.last()) < 3);
        plan_code_is_canonical(plan.drop_last(), other.drop_last());
        assert(plan.last() == other.last());
        assert(plan =~= plan.drop_last().push(plan.last()));
        assert(other =~= other.drop_last().push(other.last()));
    } else {
        assert(plan =~= other);
    }
}

/// The full search is over 9240 orderings.
pub proof fn full_stock_arrangements()
    ensures
        arrangements(5, 3, 3) == 9240,
{
    arrangements_is_multinomial(5, 3, 3);
    reveal_with_fuel(factorial, 12);
    assert(factorial(5) == 120);
    assert(factorial(3) == 6);
    assert(factorial(11) == 39916800);
    let orders = arrangements(5, 3, 3);
    let repeats = factorial(5) * factorial(3) * factorial(3);
    assert(repeats == 4320) by (nonlinear_arith)
        requires
            repeats == factorial(5) * factorial(3) * factorial(3),
            factorial(5) == 120,
            factorial(3) == 6,
    ;
    assert(orders == 9240) by (nonlinear_arith)
        requires
            orders * repeats == 39916800,
            repeats == 4320,
    ;
}

// ---------------------------------------------------------------------
// The search
// ---------------------------------------------------------------------
proof fn lemma_plan_code_bound(plan: Seq<Action>)
    ensures
        plan_code(plan) < pow3(plan.len()),
    decreases plan.len(),
{
    if plan.len() > 0 {
        lemma_plan_code_bound(plan.drop_last());
    }
}

proof fn lemma_pow3_grows(low: nat, high: nat)
    requires
        low <= high,
    ensures
        0 < pow3(low) <= pow3(high),
    decreases high,
{
    if low < high {
        lemma_pow3_grows(low, (high - 1) as nat);
    } else if low > 0 {
        lemma_pow3_grows((low - 1) as nat, (low - 1) as nat);
    }
}

proof fn lemma_pow3_fits()
    ensures
        pow3(MAX_PLAN_LENGTH as nat) <= u64::MAX,
{
    reveal_with_fuel(pow3, 11);
    assert(pow3(10) == 59049);
    assert(pow3(20) == 59049 * pow3(10));
    assert(pow3(30) == 59049 * pow3(20));
    assert(pow3(40) == 59049 * pow3(30));
}

/// The least code of the plans below a node: a node with code `code` and
/// `left` actions still to place covers the codes from
/// `first_code(code, left)` up to, but not including,
/// `first_code(code + 1, left)`.
#[verifier::opaque]
spec fn first_code(code: nat, left: nat) -> nat {
    code * pow3(left)
}

/// The three children of a node split its range of codes in order.
proof fn lemma_child_ranges(code: nat, left: nat)
    ensures
        first_code(code, 0) == code,
        left > 0 ==> first_code(code * 3, (left - 1) as nat) == first_code(code, left),
        left > 0 ==> first_code(code * 3, (left - 1) as nat) <= first_code(
            code * 3 + 1,
            (left - 1) as nat,
        ) <= first_code(code * 3 + 2, (left - 1) as nat) <= first_code(
            code * 3 + 3,
            (left - 1) as nat,
        ),
        left > 0 ==> first_code(code * 3 + 3, (left - 1) as nat) == first_code(code + 1, left),
{
    reveal(first_code);
    assert(code * pow3(0) == code) by (nonlinear_arith)
        requires
            pow3(0) == 1,
    ;
    if left > 0 {
        let unit = pow3((left - 1) as nat);
        lemma_pow3_grows(0, (left - 1) as nat);
        assert(pow3(left) == 3 * unit);
        assert((code * 3) * unit == code * (3 * unit)) by (nonlinear_arith);
        assert((code * 3) * unit <= (code * 3 + 1) * unit <= (code * 3 + 2) * unit <= (code * 3
            + 3) * unit) by (nonlinear_arith)
            requires
                unit > 0,
        ;
        assert((code * 3 + 3) * unit == (code + 1) * (3 * unit)) by (nonlinear_arith);
    }
}

/// A step down keeps the code within the machine's integers.
proof fn lemma_child_code_fits(prefix: Seq<Action>)
    requires
        prefix.len() < MAX_PLAN_LENGTH,
    ensures
        plan_code(prefix) * 3 + 2 <= u64::MAX,
{
    lemma_plan_code_bound(prefix);
    lemma_pow3_grows(prefix.len() + 1, MAX_PLAN_LENGTH as nat);
    lemma_pow3_fits();
    assert(pow3(prefix.len() + 1) == 3 * pow3(prefix.len()));
}

/// Tries every ordering of the stock after the actions in `acc`, in the
/// order of their codes, until the budget is spent. `seen` holds the codes
/// of the plans tried so far, all of them below those still to come, so
/// that no plan is ever tried twice.
fn explore(
    track: &[Action],
    rounds: usize,
    base: usize,
    budget: usize,
    pluses: usize,
    minuses: usize,
    equals: usize,
    acc: &mut Vec<Action>,
    code: u64,
    seen: &mut HashSet<u64>,
    tally: &mut SearchReport,
) -> (completed: bool)
    requires
        track.len() > 0,
        1 <= old(acc).len() + pluses + minuses + equals <= MAX_PLAN_LENGTH,
        code == plan_code(old(acc)@),
        old(tally).winning <= old(tally).simulated <= budget,
        forall|c: u64| #[trigger]
            old(seen)@.contains(c) ==> c < first_code(
                code as nat,
                (pluses + minuses + equals) as nat,
            ),
    ensures
        final(acc)@ == old(acc)@,
        final(tally).winning <= final(tally).simulated <= budget,
        completed ==> final(tally).simulated == old(tally).simulated + arrangements(
            pluses as nat,
            minuses as nat,
            equals as nat,
        ),
        completed ==> final(tally).winning == old(tally).winning + wins_from(
            track@,
            rounds as nat,
            base as int,
            old(acc)@,
            pluses as nat,
            minuses as nat,
            equals as nat,
        ),
        completed ==> forall|c: u64| #[trigger]
            final(seen)@.contains(c) ==> c < first_code(
                (code + 1) as nat,
                (pluses + minuses + equals) as nat,
            ),
        !completed ==> old(tally).simulated + arrangements(
            pluses as nat,
            minuses as nat,
            equals as nat,
        ) > budget,
    decreases pluses + minuses + equals,
{
    let ghost prefix = acc@;
    let ghost left = (pluses + minuses + equals) as nat;
    if pluses == 0 && minuses == 0 && equals == 0 {
        if tally.simulated >= budget {
            return false;
        }
        proof {
            lemma_child_ranges(code as nat, 0);
            lemma_child_ranges((code + 1) as nat, 0);
        }
        if seen.insert(code) {
            tally.simulated = tally.simulated + 1;
            let wins = match simulate(track, acc.as_slice(), rounds) {
                Ok(total) => total > base,
                Err(_) => true,
            };
            if wins {
                tally.winning = tally.winning + 1;
            }
        }
        return true;
    }
    proof {
        lemma_child_ranges(code as nat, left);
        lemma_child_code_fits(prefix);
    }
    let ghost below = (left - 1) as nat;
    let mut completed = true;
    if pluses > 0 {
        acc.push(Action::Inc);
        proof {
            assert(acc@.drop_last() =~= prefix);
        }
        completed = explore(
            track,
            rounds,
            base,
            budget,
            pluses - 1,
            minuses,
            equals,
            acc,
            code * 3,
            seen,
            tally,
        );
        acc.pop();
        proof {
            assert(acc@ =~= prefix);
        }
    }
    proof {
        if completed {
            assert(forall|c: u64| #[trigger]
                seen@.contains(c) ==> c < first_code((code * 3 + 1) as nat, below));
        }
    }
    if completed && minuses > 0 {
        acc.push(Action::Dec);
        proof {
            assert(acc@.drop_last() =~= prefix);
        }
        completed = explore(
            track,
            rounds,
            base,
            budget,
            pluses,
            minuses - 1,
            equals,
            acc,
            code * 3 + 1,
            seen,
            tally,
        );
        acc.pop();
        proof {
            assert(acc@ =~= prefix);
        }
    }
    proof {
        if completed {
            assert(forall|c: u64| #[trigger]
                seen@.contains(c) ==> c < first_code((code * 3 + 2) as nat, below));
        }
    }
    if completed && equals > 0 {
        acc.push(Action::Keep);
        proof {
            assert(acc@.drop_last() =~= prefix);
        }
        completed = explore(
            track,
            rounds,
            base,
            budget,
            pluses,
            minuses,
            equals - 1,
            acc,
            code * 3 + 2,
            seen,
            tally,
        );
        acc.pop();
        proof {
            assert(acc@ =~= prefix);
        }
    }
    proof {
        if completed {
            assert(forall|c: u64| #[trigger]
                seen@.contains(c) ==> c < first_code((code * 3 + 3) as nat, below));
        }
    }
    completed
}

/// Counts the orderings of a stock of actions that, run for `laps` laps of
/// `track`, collect a total strictly above `base`. Every ordering is tried
/// once; a search that would try more than `budget` of them fails.
pub fn search_plans(
    track: &[Action],
    pluses: usize,
    minuses: usize,
    equals: usize,
    base: usize,
    laps: usize,
    budget: usize,
) -> (outcome: Result<SearchReport, QuestError>)
    ensures
        outcome == search_outcome(
            track@,
            pluses as nat,
            minuses as nat,
            equals as nat,
            base as nat,
            laps as nat,
            budget as nat,
        ),
{
    if track.len() == 0 || (pluses == 0 && minuses == 0 && equals == 0) {
        return Err(QuestError::PreconditionViolation);
    }
    if pluses > MAX_PLAN_LENGTH || minuses > MAX_PLAN_LENGTH || equals > MAX_PLAN_LENGTH || pluses
        + minuses + equals > MAX_PLAN_LENGTH {
        return Err(QuestError::ResourceExhaustion);
    }
    let rounds = match laps.checked_mul(track.len()) {
        Some(rounds) => rounds,
        None => {
            return Err(QuestError::ResourceExhaustion);
        },
    };
    let mut acc: Vec<Action> = Vec::new();
    let mut seen: HashSet<u64> = HashSet::new();
    let mut tally = SearchReport { winning: 0, simulated: 0 };
    let completed = explore(
        track,
        rounds,
        base,
        budget,
        pluses,
        minuses,
        equals,
        &mut acc,
        0,
        &mut seen,
        &mut tally,
    );
    if !completed {
        return Err(QuestError::ResourceExhaustion);
    }
    proof {
        lemma_winners_counted(
            track@,
            rounds as nat,
            base as int,
            Seq::empty(),
            pluses as nat,
            minuses as nat,
            equals as nat,
        );
        lemma_winners_from_start(
            track@,
            rounds as nat,
            base as int,
            pluses as nat,
            minuses as nat,
            equals as nat,
        );
        assert(acc@ =~= Seq::<Action>::empty());
    }
    Ok(tally)
}

/// What the search of the full race answers: the number of orderings of
/// five increases, three decreases and three holds that beat `base` over
/// `LAPS` laps of `racetrack`.
pub open spec fn full_search_outcome(racetrack: Seq<Action>, base: nat) -> Result<
    usize,
    QuestError,
> {
    if racetrack.len() == 0 {
        Err(QuestError::PreconditionViolation)
    } else if LAPS * racetrack.len() > usize::MAX {
        Err(QuestError::ResourceExhaustion)
    } else {
        Ok(
            winning_plans(
                racetrack,
                5,
                3,
                3,
                (LAPS * racetrack.len()) as nat,
                base as int,
            ).len() as usize,
        )
    }
}

/// The number of orderings of five increases, three decreases and three
/// holds that beat `base` over the full race on `racetrack`.
pub fn total_winning_plans(racetrack: &[Action], base: usize) -> (outcome: Result<
    usize,
    QuestError,
>)
    ensures
        outcome == full_search_outcome(racetrack@, base as nat),
{
    proof {
        full_stock_arrangements();
    }
    match search_plans(racetrack, 5, 3, 3, base, LAPS, PLAN_BUDGET) {
        Ok(report) => Ok(report.winning),
        Err(error) => Err(error),
    }
}

/// The text of a plan: one character for each action, `+`, `-` or `=`.
pub fn plan_text(plan: &[Action]) -> (text: String)
    ensures
        text@ == plan@.map_values(|action: Action| action_symbol(action)),
{
    let mut text = String::new();
    let mut at: usize = 0;
    while at < plan.len()
        invariant
            at <= plan.len(),
            text@ == plan@.take(at as int).map_values(|action: Action| action_symbol(action)),
        decreases plan.len() - at,
    {
        let symbol = match plan[at] {
            Action::Inc => '+',
            Action::Dec => '-',
            Action::Keep => '=',
        };
        text.push(symbol);
        proof {
            assert(plan@.take(at + 1) =~= plan@.take(at as int).push(plan@[at as int]));
            assert(plan@.take(at + 1).map_values(|action: Action| action_symbol(action))
                =~= plan@.take(at as int).map_values(|action: Action| action_symbol(action)).push(
                symbol,
            ));
        }
        at += 1;
    }
    proof {
        assert(plan@.take(at as int) =~= plan@);
    }
    text
}

} // verus!
