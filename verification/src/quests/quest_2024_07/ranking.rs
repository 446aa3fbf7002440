//! Ranking racers by their totals.

use vstd::prelude::*;
use vstd::string::StringExecFns;

verus! {

/// The standings as values: each racer's name and total.
pub open spec fn standings(scores: Seq<(String, usize)>) -> Seq<(Seq<char>, nat)> {
    scores.map_values(|score: (String, usize)| (score.0@, score.1 as nat))
}

/// The place a new total takes in a ranking: behind every entry that is at
/// least as good.
pub open spec fn slot(sorted: Seq<(Seq<char>, nat)>, total: nat) -> nat
    decreases sorted.len(),
{
    if sorted.len() > 0 && sorted[0].1 >= total {
        1 + slot(sorted.drop_first(), total)
    } else {
        0
    }
}

/// The entries ranked: the higher total first, and of two equal totals the
/// one that was entered first.
pub open spec fn ranked(entries: Seq<(Seq<char>, nat)>) -> Seq<(Seq<char>, nat)>
    decreases entries.len(),
{
    if entries.len() == 0 {
        Seq::empty()
    } else {
        let before = ranked(entries.drop_last());
        before.insert(slot(before, entries.last().1) as int, entries.last())
    }
}

/// The names of the entries, one after the other.
pub open spec fn names_of(entries: Seq<(Seq<char>, nat)>) -> Seq<char>
    decreases entries.len(),
{
    if entries.len() == 0 {
        Seq::empty()
    } else {
        names_of(entries.drop_last()) + entries.last().0
    }
}

/// The ranking as text: the names in the order of the ranking.
pub open spec fn ranking_text(entries: Seq<(Seq<char>, nat)>) -> Seq<char> {
    names_of(ranked(entries))
}

/// `entries` run from the highest total to the lowest.
pub open spec fn is_descending(entries: Seq<(Seq<char>, nat)>) -> bool {
    forall|i: int, j: int| 0 <= i < j < entries.len() ==> entries[i].1 >= entries[j].1
}

proof fn lemma_slot(sorted: Seq<(Seq<char>, nat)>, total: nat)
    ensures
        slot(sorted, total) <= sorted.len(),
        forall|i: int| 0 <= i < slot(sorted, total) ==> (#[trigger] sorted[i]).1 >= total,
        slot(sorted, total) < sorted.len() ==> sorted[slot(sorted, total) as int].1 < total,
    decreases sorted.len(),
{
    if sorted.len() > 0 && sorted[0].1 >= total {
        lemma_slot(sorted.drop_first(), total);
        assert forall|i: int| 0 <= i < slot(sorted, total) implies (#[trigger] sorted[i]).1
            >= total by {
            if i > 0 {
                assert(sorted.drop_first()[i - 1] == sorted[i]);
            }
        }
    }
}

/// A ranking holds the entries it was made from, each as often as it was
/// entered, and runs from the highest total to the lowest.
pub proof fn ranked_sorts(entries: Seq<(Seq<char>, nat)>)
    ensures
        ranked(entries).len() == entries.len(),
        ranked(entries).to_multiset() == entries.to_multiset(),
        is_descending(ranked(entries)),
    decreases entries.len(),
{
    if entries.len() == 0 {
        assert(entries =~= ranked(entries));
    } else {
        let before = ranked(entries.drop_last());
        let entry = entries.last();
        let at = slot(before, entry.1) as int;
        let after = before.insert(at, entry);
        ranked_sorts(entries.drop_last());
        lemma_slot(before, entry.1);
        before.insert_ensures(at, entry);
        assert(after.remove(at) =~= before);
        after.to_multiset_ensures();
        entries.drop_last().to_multiset_ensures();
        assert(entries =~= entries.drop_last().push(entry));
        assert(after.to_multiset() =~= before.to_multiset().insert(entry));
        assert forall|i: int, j: int| 0 <= i < j < after.len() implies after[i].1
            >= after[j].1 by {
            if j < at {
                assert(after[i] == before[i] && after[j] == before[j]);
            } else if j == at {
                assert(after[i] == before[i]);
            } else if i < at {
                assert(after[i] == before[i] && after[j] == before[j - 1]);
                assert(before[i].1 >= entry.1);
                if at < j - 1 {
                    assert(before[at].1 >= before[j - 1].1);
                }
            } else if i == at {
                assert(after[j] == before[j - 1]);
                if at < j - 1 {
                    assert(before[at].1 >= before[j - 1].1);
                }
            } else {
                assert(after[i] == before[i - 1] && after[j] == before[j - 1]);
            }
        }
    }
}

/// The entries with the total `total`, in their order.
pub open spec fn with_total(entries: Seq<(Seq<char>, nat)>, total: nat) -> Seq<(Seq<char>, nat)>
    decreases entries.len(),
{
    if entries.len() == 0 {
        Seq::empty()
    } else {
        let before = with_total(entries.drop_last(), total);
        if entries.last().1 == total {
            before.push(entries.last())
        } else {
            before
        }
    }
}

proof fn lemma_slot_found(sorted: Seq<(Seq<char>, nat)>, total: nat, at: int)
    requires
        0 <= at <= sorted.len(),
        forall|i: int| 0 <= i < at ==> (#[trigger] sorted[i]).1 >= total,
        at < sorted.len() ==> sorted[at].1 < total,
    ensures
        slot(sorted, total) == at,
    decreases at,
{
    if at > 0 {
        assert(sorted[0].1 >= total);
        let rest = sorted.drop_first();
        assert forall|i: int| 0 <= i < at - 1 implies (#[trigger] rest[i]).1 >= total by {
            assert(rest[i] == sorted[i + 1]);
        }
        lemma_slot_found(rest, total, at - 1);
    }
}

/// An entry that takes its place in a ranking comes behind the entries
/// with its total and leaves the others as they stand.
proof fn lemma_place_is_fair(sorted: Seq<(Seq<char>, nat)>, entry: (Seq<char>, nat), total: nat)
    requires
        is_descending(sorted),
    ensures
        with_total(sorted.insert(slot(sorted, entry.1) as int, entry), total) == if entry.1
            == total {
            with_total(sorted, total).push(entry)
        } else {
            with_total(sorted, total)
        },
    decreases sorted.len(),
{
    let at = slot(sorted, entry.1) as int;
    let placed = sorted.insert(at, entry);
    lemma_slot(sorted, entry.1);
    sorted.insert_ensures(at, entry);
    if at == sorted.len() {
        assert(placed.drop_last() =~= sorted);
    } else {
        let before = sorted.drop_last();
        assert(sorted[at].1 >= sorted[sorted.len() - 1].1);
        assert(placed.last() == sorted.last());
        assert(placed.drop_last() =~= before.insert(at, entry));
        assert(is_descending(before)) by {
            assert forall|i: int, j: int| 0 <= i < j < before.len() implies before[i].1
                >= before[j].1 by {
                assert(sorted[i].1 >= sorted[j].1);
            }
        }
        assert(slot(before, entry.1) == at) by {
            assert forall|i: int| 0 <= i < at implies (#[trigger] before[i]).1 >= entry.1 by {
                assert(sorted[i].1 >= entry.1);
            }
            lemma_slot_found(before, entry.1, at);
        }
        lemma_place_is_fair(before, entry, total);
    }
}

/// Ranking is stable: the entries with one total stand in a ranking in the
/// order in which they were entered.
pub proof fn ranking_is_stable(entries: Seq<(Seq<char>, nat)>, total: nat)
    ensures
        with_total(ranked(entries), total) == with_total(entries, total),
    decreases entries.len(),
{
    if entries.len() > 0 {
        ranking_is_stable(entries.drop_last(), total);
        ranked_sorts(entries.drop_last());
        lemma_place_is_fair(ranked(entries.drop_last()), entries.last(), total);
    }
}

/// The entries that `order` picks from `entries`, in its order.
spec fn picked(order: Seq<usize>, entries: Seq<(Seq<char>, nat)>) -> Seq<(Seq<char>, nat)> {
    Seq::new(order.len(), |i: int| entries[order[i] as int])
}

/// The order in which `scores` rank: positions in `scores`, best first.
fn ranking_order(scores: &Vec<(String, usize)>) -> (order: Vec<usize>)
    ensures
        order.len() == scores.len(),
        forall|i: int| 0 <= i < order.len() ==> (#[trigger] order[i]) < scores.len(),
        picked(order@, standings(scores@)) == ranked(standings(scores@)),
{
    let ghost entries = standings(scores@);
    let mut order: Vec<usize> = Vec::new();
    let mut next: usize = 0;
    proof {
        assert(picked(order@, entries) =~= ranked(entries.take(0)));
    }
    while next < scores.len()
        invariant
            next <= scores.len(),
            entries == standings(scores@),
            order.len() == next,
            forall|i: int| 0 <= i < order.len() ==> (#[trigger] order[i]) < next,
            picked(order@, entries) == ranked(entries.take(next as int)),
        decreases scores.len() - next,
    {
        let total = scores[next].1;
        let ghost before = picked(order@, entries);
        let mut at: usize = 0;
        proof {
            assert(before.skip(0) =~= before);
        }
        while at < order.len() && scores[order[at]].1 >= total
            invariant
                at <= order.len(),
                next < scores.len(),
                order.len() == next,
                total == scores[next as int].1,
                entries == standings(scores@),
                before == picked(order@, entries),
                forall|i: int| 0 <= i < order.len() ==> (#[trigger] order[i]) < next,
                slot(before, total as nat) == at + slot(before.skip(at as int), total as nat),
            decreases order.len() - at,
        {
            proof {
                assert(before.skip(at as int)[0] == before[at as int]);
                assert(before.skip(at as int).drop_first() =~= before.skip(at + 1));
            }
            at += 1;
        }
        proof {
            if at < order.len() {
                assert(before.skip(at as int)[0] == before[at as int]);
            }
            assert(entries.take(next + 1).drop_last() =~= entries.take(next as int));
            assert(entries.take(next + 1).last() == entries[next as int]);
        }
        order.insert(at, next);
        proof {
            assert(picked(order@, entries) =~= before.insert(at as int, entries[next as int]));
        }
        next += 1;
    }
    proof {
        assert(entries.take(next as int) =~= entries);
    }
    order
}

/// The ranking of `scores` as text: the names from the highest total to
/// the lowest, racers with equal totals in the order in which they stand.
pub fn calc_ranking(scores: &Vec<(String, usize)>) -> (text: String)
    ensures
        text@ == ranking_text(standings(scores@)),
{
    let order = ranking_order(scores);
    let ghost sorted = ranked(standings(scores@));
    let mut text = String::new();
    let mut at: usize = 0;
    proof {
        assert(sorted.take(0) =~= Seq::empty());
    }
    while at < order.len()
        invariant
            at <= order.len(),
            order.len() == scores.len(),
            forall|i: int| 0 <= i < order.len() ==> (#[trigger] order[i]) < scores.len(),
            sorted == picked(order@, standings(scores@)),
            text@ == names_of(sorted.take(at as int)),
        decreases order.len() - at,
    {
        proof {
            assert(sorted.take(at + 1).drop_last() =~= sorted.take(at as int));
            assert(sorted.take(at + 1).last() == sorted[at as int]);
        }
        text.append(scores[order[at]].0.as_str());
        at += 1;
    }
    proof {
        assert(sorted.take(at as int) =~= sorted);
    }
    text
}

} // verus!
