//! Quest 6 of 2024: the one fruit of a tree that hangs at a length of its
//! own.

use vstd::prelude::*;
use vstd::string::StringExecFns;
use crate::common::marks::{lemma_mark_added, lemma_marked_in_bounded, marked_in};
use crate::common::strings::TrimmedSplit;
use crate::common::text::{
    copy_range,
    rows,
    same_text,
    split,
    split_once,
    split_once_spec,
    split_spec,
    string_of,
    trimmed_lines,
};
use crate::quests::{Quest, QuestError, QuestInputLoader, Solution, first_of, second_of, text_of, third_of};

verus! {

/// The name of a place on the tree.
pub type Node = Vec<char>;

/// A tree: its branches by name, each with the places that grow from it.
/// Where a name stands twice, the first stands for the branch.
pub type Tree = Vec<(Node, Vec<Node>)>;

/// A tree as values.
pub open spec fn limbs(tree: Seq<(Node, Vec<Node>)>) -> Seq<(Seq<char>, Seq<Seq<char>>)> {
    tree.map_values(|limb: (Node, Vec<Node>)| (limb.0@, rows(limb.1@)))
}

/// The name of the root.
pub open spec fn root() -> Seq<char> {
    seq!['R', 'R']
}

/// The name of every fruit.
pub open spec fn fruit() -> Seq<char> {
    seq!['@']
}

/// The place of the branch called `name` in `tree`; the length of `tree`
/// where there is none.
pub open spec fn find_limb(tree: Seq<(Seq<char>, Seq<Seq<char>>)>, name: Seq<char>) -> nat
    decreases tree.len(),
{
    if tree.len() == 0 || tree[0].0 == name {
        0
    } else {
        1 + find_limb(tree.drop_first(), name)
    }
}

/// What grows from the branch called `name`; nothing where there is no
/// such branch.
pub open spec fn kids(tree: Seq<(Seq<char>, Seq<Seq<char>>)>, name: Seq<char>) -> Option<
    Seq<Seq<char>>,
> {
    let at = find_limb(tree, name) as int;
    if at < tree.len() {
        Some(tree[at].1)
    } else {
        None
    }
}

/// `way` leads from the root along the tree: every place but the last is
/// a branch and no fruit, the next place grows from it, and no branch is
/// passed twice.
pub open spec fn is_way(tree: Seq<(Seq<char>, Seq<Seq<char>>)>, way: Seq<Seq<char>>) -> bool {
    &&& way.len() > 0
    &&& way[0] == root()
    &&& way.drop_last().no_duplicates()
    &&& forall|i: int|
        0 <= i < way.len() - 1 ==> {
            &&& #[trigger] way[i] != fruit()
            &&& kids(tree, way[i]) is Some
            &&& kids(tree, way[i])->Some_0.contains(way[i + 1])
        }
}

/// `path` leads from the root to a fruit.
pub open spec fn is_path(tree: Seq<(Seq<char>, Seq<Seq<char>>)>, path: Seq<Seq<char>>) -> bool {
    is_way(tree, path) && path.last() == fruit()
}

/// No other path to a fruit is as long as `path`.
pub open spec fn is_lonely(tree: Seq<(Seq<char>, Seq<Seq<char>>)>, path: Seq<Seq<char>>) -> bool {
    forall|other: Seq<Seq<char>>| #[trigger]
        is_path(tree, other) && other.len() == path.len() ==> other == path
}

/// `tree` with what a line says of one branch: a new branch, or more
/// places for one that is there.
pub open spec fn grafted(
    tree: Seq<(Seq<char>, Seq<Seq<char>>)>,
    name: Seq<char>,
    places: Seq<Seq<char>>,
) -> Seq<(Seq<char>, Seq<Seq<char>>)> {
    let at = find_limb(tree, name) as int;
    if at < tree.len() {
        tree.update(at, (name, tree[at].1 + places))
    } else {
        tree.push((name, places))
    }
}

/// The tree that `lines` describe, one branch a line: its name, a colon,
/// and the places that grow from it, separated by commas.
pub open spec fn tree_outcome(lines: Seq<Seq<char>>) -> Result<
    Seq<(Seq<char>, Seq<Seq<char>>)>,
    QuestError,
>
    decreases lines.len(),
{
    if lines.len() == 0 {
        Ok(Seq::empty())
    } else {
        match (tree_outcome(lines.drop_last()), split_once_spec(lines.last(), ':')) {
            (Ok(tree), Some((name, list))) => Ok(grafted(tree, name, split_spec(list, ','))),
            _ => Err(QuestError::MalformedInput),
        }
    }
}

/// The tree that a text describes.
pub open spec fn parse_outcome(input: Seq<char>) -> Result<
    Seq<(Seq<char>, Seq<Seq<char>>)>,
    QuestError,
> {
    tree_outcome(trimmed_lines(input))
}

proof fn lemma_find_limb(tree: Seq<(Seq<char>, Seq<Seq<char>>)>, name: Seq<char>)
    ensures
        find_limb(tree, name) <= tree.len(),
        find_limb(tree, name) < tree.len() ==> tree[find_limb(tree, name) as int].0 == name,
        forall|i: int| 0 <= i < find_limb(tree, name) ==> (#[trigger] tree[i]).0 != name,
    decreases tree.len(),
{
    if tree.len() > 0 && tree[0].0 != name {
        lemma_find_limb(tree.drop_first(), name);
        assert forall|i: int| 0 <= i < find_limb(tree, name) implies (#[trigger] tree[i]).0
            != name by {
            if i > 0 {
                assert(tree.drop_first()[i - 1] == tree[i]);
            }
        }
    }
}

proof fn lemma_limb_found(tree: Seq<(Seq<char>, Seq<Seq<char>>)>, name: Seq<char>, at: int)
    requires
        0 <= at <= tree.len(),
        forall|i: int| 0 <= i < at ==> (#[trigger] tree[i]).0 != name,
        at < tree.len() ==> tree[at].0 == name,
    ensures
        find_limb(tree, name) == at,
    decreases at,
{
    if at > 0 {
        assert(tree[0].0 != name);
        let rest = tree.drop_first();
        assert forall|i: int| 0 <= i < at - 1 implies (#[trigger] rest[i]).0 != name by {
            assert(rest[i] == tree[i + 1]);
        }
        lemma_limb_found(rest, name, at - 1);
    }
}

proof fn lemma_tree_error_persists(lines: Seq<Seq<char>>, upto: int)
    requires
        0 <= upto <= lines.len(),
        tree_outcome(lines.take(upto)) is Err,
    ensures
        tree_outcome(lines) == Err::<Seq<(Seq<char>, Seq<Seq<char>>)>, QuestError>(
            QuestError::MalformedInput,
        ),
    decreases lines.len() - upto,
{
    if upto < lines.len() {
        assert(lines.take(upto + 1).drop_last() =~= lines.take(upto));
        lemma_tree_error_persists(lines, upto + 1);
    } else {
        assert(lines.take(upto) =~= lines);
    }
}

/// The place of the branch called `name`.
fn limb_of(tree: &Tree, name: &[char]) -> (place: Option<usize>)
    ensures
        match place {
            Some(at) => at < tree.len() && find_limb(limbs(tree@), name@) == at,
            None => find_limb(limbs(tree@), name@) == tree.len(),
        },
{
    let mut at: usize = 0;
    while at < tree.len()
        invariant
            at <= tree.len(),
            forall|i: int| 0 <= i < at ==> (#[trigger] limbs(tree@)[i]).0 != name@,
        decreases tree.len() - at,
    {
        proof {
            assert(limbs(tree@)[at as int].0 == tree[at as int].0@);
        }
        if same_text(tree[at].0.as_slice(), name) {
            proof {
                lemma_limb_found(limbs(tree@), name@, at as int);
            }
            return Some(at);
        }
        at += 1;
    }
    proof {
        lemma_limb_found(limbs(tree@), name@, at as int);
    }
    None
}

/// Adds what a line says of one branch.
fn graft(tree: &mut Tree, name: Node, places: Vec<Node>)
    ensures
        limbs(final(tree)@) == grafted(limbs(old(tree)@), name@, rows(places@)),
{
    let ghost before = limbs(tree@);
    match limb_of(tree, name.as_slice()) {
        Some(at) => {
            let mut at_place: usize = 0;
            let ghost had = tree[at as int].1@;
            while at_place < places.len()
                invariant
                    at_place <= places.len(),
                    at < tree.len(),
                    tree.len() == before.len(),
                    forall|i: int| 0 <= i < tree.len() && i != at ==> tree[i] == old(tree)[i],
                    tree[at as int].0 == old(tree)[at as int].0,
                    rows(tree[at as int].1@) == before[at as int].1 + rows(places@).take(
                        at_place as int,
                    ),
                    before == limbs(old(tree)@),
                decreases places.len() - at_place,
            {
                let ghost so_far = rows(tree[at as int].1@);
                tree[at].1.push(places[at_place].clone());
                proof {
                    assert(rows(tree[at as int].1@) =~= so_far.push(places[at_place as int]@));
                    assert(rows(places@).take(at_place + 1) =~= rows(places@).take(
                        at_place as int,
                    ).push(places[at_place as int]@));
                }
                at_place += 1;
            }
            proof {
                assert(rows(places@).take(at_place as int) =~= rows(places@));
                lemma_find_limb(before, name@);
                assert(before[at as int].0 == name@);
                assert(limbs(tree@) =~= grafted(before, name@, rows(places@))) by {
                    assert forall|i: int| 0 <= i < tree.len() implies limbs(tree@)[i] == grafted(
                        before,
                        name@,
                        rows(places@),
                    )[i] by {
                        if i != at {
                            assert(tree[i] == old(tree)[i]);
                        }
                    }
                }
            }
        },
        None => {
            tree.push((name, places));
            proof {
                assert(limbs(tree@) =~= before.push((name@, rows(places@))));
            }
        },
    }
}

/// The tree that `input` describes, one branch a line.
pub fn parse(input: &str) -> (outcome: Result<Tree, QuestError>)
    ensures
        match outcome {
            Ok(tree) => parse_outcome(input@) == Ok::<
                Seq<(Seq<char>, Seq<Seq<char>>)>,
                QuestError,
            >(limbs(tree@)),
            Err(error) => parse_outcome(input@) == Err::<
                Seq<(Seq<char>, Seq<Seq<char>>)>,
                QuestError,
            >(error),
        },
{
    let lines = input.trimmed_split();
    let ghost list = rows(lines@);
    let mut tree: Tree = Vec::new();
    let mut at: usize = 0;
    proof {
        assert(limbs(tree@) =~= Seq::empty());
    }
    while at < lines.len()
        invariant
            at <= lines.len(),
            list == rows(lines@),
            list == trimmed_lines(input@),
            tree_outcome(list.take(at as int)) == Ok::<
                Seq<(Seq<char>, Seq<Seq<char>>)>,
                QuestError,
            >(limbs(tree@)),
        decreases lines.len() - at,
    {
        proof {
            assert(list.take(at + 1).drop_last() =~= list.take(at as int));
            assert(list.take(at + 1).last() == lines[at as int]@);
        }
        match split_once(lines[at].as_slice(), ':') {
            Some((name, list)) => {
                let places = split(list.as_slice(), ',');
                graft(&mut tree, name, places);
            },
            None => {
                proof {
                    lemma_tree_error_persists(list, at + 1);
                }
                return Err(QuestError::MalformedInput);
            },
        }
        at += 1;
    }
    proof {
        assert(list.take(at as int) =~= list);
    }
    Ok(tree)
}

// ---------------------------------------------------------------------
// Climbing the tree
// ---------------------------------------------------------------------
/// `path` starts with `way`.
spec fn extends(path: Seq<Seq<char>>, way: Seq<Seq<char>>) -> bool {
    way.len() <= path.len() && path.take(way.len() as int) == way
}

/// The paths to a fruit that start with `way`.
spec fn paths_through(tree: Seq<(Seq<char>, Seq<Seq<char>>)>, way: Seq<Seq<char>>) -> Set<
    Seq<Seq<char>>,
> {
    Set::new(|path: Seq<Seq<char>>| is_path(tree, path) && extends(path, way))
}

/// The paths to a fruit that start with `way` and go on with one of the
/// first `upto` of `places`.
spec fn paths_beyond(
    tree: Seq<(Seq<char>, Seq<Seq<char>>)>,
    way: Seq<Seq<char>>,
    places: Seq<Seq<char>>,
    upto: int,
) -> Set<Seq<Seq<char>>> {
    Set::new(
        |path: Seq<Seq<char>>|
            is_path(tree, path) && exists|i: int|
                0 <= i < upto && #[trigger] extends(path, way.push(places[i])),
    )
}

/// The names of the branches at the places `path`.
spec fn names(tree: Seq<(Seq<char>, Seq<Seq<char>>)>, path: Seq<usize>) -> Seq<Seq<char>> {
    Seq::new(path.len(), |i: int| tree[path[i] as int].0)
}

/// `path` holds places of branches that stand for their names, and
/// `on_path` marks them.
spec fn on_the_way(tree: Seq<(Seq<char>, Seq<Seq<char>>)>, path: Seq<usize>, on_path: Seq<bool>) -> bool {
    &&& on_path.len() == tree.len()
    &&& forall|i: int|
        0 <= i < path.len() ==> (#[trigger] path[i]) < tree.len() && find_limb(
            tree,
            tree[path[i] as int].0,
        ) == path[i]
    &&& forall|k: int| 0 <= k < tree.len() ==> (#[trigger] on_path[k] <==> path.contains(k as usize))
}

/// A path that is longer than the way it starts with.
proof fn lemma_longer(tree: Seq<(Seq<char>, Seq<Seq<char>>)>, way: Seq<Seq<char>>, path: Seq<Seq<char>>)
    requires
        way.len() > 0,
        way.last() != fruit(),
        is_path(tree, path),
        extends(path, way),
    ensures
        path.len() > way.len(),
        path[way.len() - 1] == way.last(),
{
    assert(path.take(way.len() as int)[way.len() - 1] == path[way.len() - 1]);
}

/// At a fruit the way is the one path.
proof fn lemma_at_fruit(tree: Seq<(Seq<char>, Seq<Seq<char>>)>, way: Seq<Seq<char>>)
    requires
        is_way(tree, way),
        way.last() == fruit(),
    ensures
        paths_through(tree, way) == set![way],
{
    assert forall|path: Seq<Seq<char>>| paths_through(tree, way).contains(path) implies path
        == way by {
        assert(path.take(way.len() as int)[way.len() - 1] == path[way.len() - 1]);
        if path.len() > way.len() {
            assert(path[way.len() - 1] != fruit());
        }
        assert(path.take(way.len() as int) =~= path);
    }
    assert(way.take(way.len() as int) =~= way);
    assert(paths_through(tree, way) =~= set![way]);
}

/// No path leads on from a place that is no branch.
proof fn lemma_no_limb(tree: Seq<(Seq<char>, Seq<Seq<char>>)>, way: Seq<Seq<char>>)
    requires
        way.len() > 0,
        way.last() != fruit(),
        kids(tree, way.last()) is None,
    ensures
        paths_through(tree, way) == Set::<Seq<Seq<char>>>::empty(),
{
    assert forall|path: Seq<Seq<char>>| !paths_through(tree, way).contains(path) by {
        if is_path(tree, path) && extends(path, way) {
            lemma_longer(tree, way, path);
            assert(kids(tree, path[way.len() - 1]) is Some);
        }
    }
    assert(paths_through(tree, way) =~= Set::<Seq<Seq<char>>>::empty());
}

/// No path passes a branch twice.
proof fn lemma_circle(tree: Seq<(Seq<char>, Seq<Seq<char>>)>, way: Seq<Seq<char>>)
    requires
        way.len() > 0,
        way.last() != fruit(),
        way.drop_last().contains(way.last()),
    ensures
        paths_through(tree, way) == Set::<Seq<Seq<char>>>::empty(),
{
    assert forall|path: Seq<Seq<char>>| !paths_through(tree, way).contains(path) by {
        if is_path(tree, path) && extends(path, way) {
            lemma_longer(tree, way, path);
            let at = choose|at: int| 0 <= at < way.len() - 1 && way.drop_last()[at] == way.last();
            assert(path.take(way.len() as int)[at] == path[at]);
            assert(path.drop_last()[at] == path.drop_last()[way.len() - 1]);
        }
    }
    assert(paths_through(tree, way) =~= Set::<Seq<Seq<char>>>::empty());
}

/// A way that goes on to a place of its last branch is a way.
proof fn lemma_way_goes_on(
    tree: Seq<(Seq<char>, Seq<Seq<char>>)>,
    way: Seq<Seq<char>>,
    place: Seq<char>,
)
    requires
        is_way(tree, way),
        way.last() != fruit(),
        !way.drop_last().contains(way.last()),
        kids(tree, way.last()) is Some,
        kids(tree, way.last())->Some_0.contains(place),
    ensures
        is_way(tree, way.push(place)),
{
    let longer = way.push(place);
    assert(longer.drop_last() =~= way);
    assert(way.no_duplicates()) by {
        assert forall|i: int, j: int| 0 <= i < way.len() && 0 <= j < way.len() && i != j implies way[i]
            != way[j] by {
            if i < way.len() - 1 && j < way.len() - 1 {
                assert(way.drop_last()[i] != way.drop_last()[j]);
            } else if i == way.len() - 1 {
                assert(way.drop_last()[j] == way[j]);
            } else {
                assert(way.drop_last()[i] == way[i]);
            }
        }
    }
    assert forall|i: int| 0 <= i < longer.len() - 1 implies {
        &&& #[trigger] longer[i] != fruit()
        &&& kids(tree, longer[i]) is Some
        &&& kids(tree, longer[i])->Some_0.contains(longer[i + 1])
    } by {
        if i < way.len() - 1 {
            assert(way[i] != fruit());
        }
    }
}

/// The paths through a branch are the paths through its places.
proof fn lemma_branching(tree: Seq<(Seq<char>, Seq<Seq<char>>)>, way: Seq<Seq<char>>)
    requires
        way.len() > 0,
        way.last() != fruit(),
        kids(tree, way.last()) is Some,
    ensures
        paths_beyond(tree, way, kids(tree, way.last())->Some_0, kids(tree, way.last())->Some_0.len() as int)
            == paths_through(tree, way),
{
    let places = kids(tree, way.last())->Some_0;
    let beyond = paths_beyond(tree, way, places, places.len() as int);
    assert forall|path: Seq<Seq<char>>| beyond.contains(path) <==> paths_through(
        tree,
        way,
    ).contains(path) by {
        if beyond.contains(path) {
            let i = choose|i: int|
                0 <= i < places.len() && #[trigger] extends(path, way.push(places[i]));
            assert(path.take(way.len() as int) =~= path.take(way.len() as int + 1).take(way.len() as int));
            assert(way.push(places[i]).take(way.len() as int) =~= way);
        }
        if is_path(tree, path) && extends(path, way) {
            lemma_longer(tree, way, path);
            let next = path[way.len() as int];
            assert(path[way.len() - 1] != fruit());
            assert(places.contains(next));
            let i = choose|i: int| 0 <= i < places.len() && places[i] == next;
            assert(path.take(way.len() as int + 1) =~= path.take(way.len() as int).push(next));
            assert(extends(path, way.push(places[i])));
        }
    }
    assert(beyond =~= paths_through(tree, way));
}

/// What one more place adds to the paths beyond a branch.
proof fn lemma_next_place(
    tree: Seq<(Seq<char>, Seq<Seq<char>>)>,
    way: Seq<Seq<char>>,
    places: Seq<Seq<char>>,
    at: int,
)
    requires
        0 <= at < places.len(),
    ensures
        paths_beyond(tree, way, places, at + 1) == paths_beyond(tree, way, places, at)
            + paths_through(tree, way.push(places[at])),
        (exists|i: int| 0 <= i < at && places[i] == places[at]) ==> paths_beyond(
            tree,
            way,
            places,
            at + 1,
        ) == paths_beyond(tree, way, places, at),
        !(exists|i: int| 0 <= i < at && places[i] == places[at]) ==> paths_beyond(
            tree,
            way,
            places,
            at,
        ).disjoint(paths_through(tree, way.push(places[at]))),
{
    let before = paths_beyond(tree, way, places, at);
    let after = paths_beyond(tree, way, places, at + 1);
    let here = paths_through(tree, way.push(places[at]));
    assert forall|path: Seq<Seq<char>>| after.contains(path) <==> before.contains(path)
        || here.contains(path) by {
        if after.contains(path) {
            let i = choose|i: int|
                0 <= i < at + 1 && #[trigger] extends(path, way.push(places[i]));
            if i < at {
                assert(before.contains(path));
            }
        }
        if before.contains(path) {
            let i = choose|i: int| 0 <= i < at && #[trigger] extends(path, way.push(places[i]));
            assert(0 <= i < at + 1 && extends(path, way.push(places[i])));
        }
        if here.contains(path) {
            assert(0 <= at < at + 1 && extends(path, way.push(places[at])));
        }
    }
    assert(after =~= before + here);
    if exists|i: int| 0 <= i < at && places[i] == places[at] {
        let i = choose|i: int| 0 <= i < at && places[i] == places[at];
        assert forall|path: Seq<Seq<char>>| here.contains(path) implies before.contains(path) by {
            assert(0 <= i < at && extends(path, way.push(places[i])));
        }
        assert(after =~= before);
    } else {
        assert forall|path: Seq<Seq<char>>| !(before.contains(path) && here.contains(path)) by {
            if before.contains(path) && here.contains(path) {
                let i = choose|i: int|
                    0 <= i < at && #[trigger] extends(path, way.push(places[i]));
                assert(path.take(way.len() as int + 1)[way.len() as int] == places[i]);
                assert(path.take(way.len() as int + 1)[way.len() as int] == places[at]);
            }
        }
    }
}

/// What has been found of each length: the number of paths, with two
/// standing for two or more, and the first of them.
spec fn group_sums(group: (usize, Vec<Node>), len: int, found: Set<Seq<Seq<char>>>) -> bool {
    if group.0 == 0 {
        forall|path: Seq<Seq<char>>| found.contains(path) ==> path.len() != len
    } else if group.0 == 1 {
        &&& found.contains(rows(group.1@))
        &&& rows(group.1@).len() == len
        &&& forall|path: Seq<Seq<char>>|
            found.contains(path) && path.len() == len ==> path == rows(group.1@)
    } else {
        exists|path: Seq<Seq<char>>, other: Seq<Seq<char>>|
            found.contains(path) && found.contains(other) && path.len() == len && other.len()
                == len && path != other
    }
}

/// `groups` sums up the paths `found`, by their lengths.
spec fn summed(groups: Seq<(usize, Vec<Node>)>, found: Set<Seq<Seq<char>>>) -> bool {
    &&& forall|path: Seq<Seq<char>>| found.contains(path) ==> path.len() < groups.len()
    &&& forall|len: int| 0 <= len < groups.len() ==> group_sums(#[trigger] groups[len], len, found)
}

/// Notes a path that has just been found.
fn record(
    groups: &mut Vec<(usize, Vec<Node>)>,
    value: Vec<Node>,
    Ghost(found): Ghost<Set<Seq<Seq<char>>>>,
)
    requires
        summed(old(groups)@, found),
        !found.contains(rows(value@)),
    ensures
        summed(final(groups)@, found.insert(rows(value@))),
{
    let len = value.len();
    let ghost path = rows(value@);
    while groups.len() <= len
        invariant
            summed(groups@, found),
            len == value.len(),
        decreases len + 1 - groups.len(),
    {
        let ghost before = groups@;
        groups.push((0, Vec::new()));
        proof {
            assert forall|at: int| 0 <= at < groups.len() implies group_sums(
                #[trigger] groups[at],
                at,
                found,
            ) by {
                if at < before.len() {
                    assert(groups[at] == before[at]);
                }
            }
        }
    }
    let ghost before = groups@;
    let count = groups[len].0;
    if count == 0 {
        groups[len] = (1, value);
    } else if count == 1 {
        let first = groups[len].1.clone();
        groups[len] = (2, first);
    }
    proof {
        let grown = found.insert(path);
        assert(path.len() == len);
        assert(group_sums(before[len as int], len as int, found));
        assert forall|at: int| 0 <= at < groups.len() implies group_sums(
            #[trigger] groups[at],
            at,
            grown,
        ) by {
            assert(group_sums(before[at], at, found));
            if at != len {
                assert(groups[at] == before[at]);
            }
            if at == len && count == 0 {
                assert(rows(groups[at].1@) == path);
            } else if at == len && count == 1 {
                let first = rows(before[len as int].1@);
                assert(grown.contains(first) && grown.contains(path) && first != path);
                assert(first.len() == len && path.len() == len);
            } else if before[at].0 >= 2 {
                let (one, other) = choose|one: Seq<Seq<char>>, other: Seq<Seq<char>>|
                    found.contains(one) && found.contains(other) && one.len() == at
                        && other.len() == at && one != other;
                assert(grown.contains(one) && grown.contains(other));
            }
        }
    }
}

/// Whether one of the places before `at` has the name of the place `at`.
fn seen_before(places: &Vec<Node>, at: usize) -> (seen: bool)
    requires
        at < places.len(),
    ensures
        seen == exists|i: int| 0 <= i < at && rows(places@)[i] == rows(places@)[at as int],
{
    let mut before: usize = 0;
    while before < at
        invariant
            before <= at < places.len(),
            forall|i: int| 0 <= i < before ==> rows(places@)[i] != rows(places@)[at as int],
        decreases at - before,
    {
        proof {
            assert(rows(places@)[before as int] == places[before as int]@);
            assert(rows(places@)[at as int] == places[at as int]@);
        }
        if same_text(places[before].as_slice(), places[at].as_slice()) {
            return true;
        }
        before += 1;
    }
    false
}

/// The names of the branches at `path`, and `node` behind them.
fn way_to(tree: &Tree, path: &Vec<usize>, node: &[char]) -> (way: Vec<Node>)
    requires
        forall|i: int| 0 <= i < path.len() ==> (#[trigger] path[i]) < tree.len(),
    ensures
        rows(way@) == names(limbs(tree@), path@).push(node@),
{
    let mut way: Vec<Node> = Vec::new();
    let mut at: usize = 0;
    while at < path.len()
        invariant
            at <= path.len(),
            forall|i: int| 0 <= i < path.len() ==> (#[trigger] path[i]) < tree.len(),
            way.len() == at,
            forall|i: int| 0 <= i < at ==> (#[trigger] way[i])@ == tree[path[i] as int].0@,
        decreases path.len() - at,
    {
        let name = &tree[path[at]].0;
        way.push(copy_range(name.as_slice(), 0, name.len()));
        proof {
            assert(name@.subrange(0, name.len() as int) =~= name@);
        }
        at += 1;
    }
    way.push(copy_range(node, 0, node.len()));
    proof {
        assert(node@.subrange(0, node.len() as int) =~= node@);
        assert(rows(way@) =~= names(limbs(tree@), path@).push(node@));
    }
    way
}

/// Follows every way that goes on from `node`, which is reached by the
/// branches at `path`, and notes the paths to a fruit that it finds.
fn climb(
    tree: &Tree,
    node: &[char],
    path: &mut Vec<usize>,
    on_path: &mut Vec<bool>,
    groups: &mut Vec<(usize, Vec<Node>)>,
    Ghost(found): Ghost<Set<Seq<Seq<char>>>>,
) -> (grown: Ghost<Set<Seq<Seq<char>>>>)
    requires
        on_the_way(limbs(tree@), old(path)@, old(on_path)@),
        is_way(limbs(tree@), names(limbs(tree@), old(path)@).push(node@)),
        summed(old(groups)@, found),
        found.disjoint(paths_through(limbs(tree@), names(limbs(tree@), old(path)@).push(node@))),
    ensures
        final(path)@ == old(path)@,
        final(on_path)@ == old(on_path)@,
        grown@ == found + paths_through(
            limbs(tree@),
            names(limbs(tree@), old(path)@).push(node@),
        ),
        summed(final(groups)@, grown@),
    decreases tree.len() - marked_in(old(on_path)@),
{
    let ghost t = limbs(tree@);
    let ghost stem = names(t, path@);
    let ghost way = stem.push(node@);
    proof {
        assert(way.drop_last() =~= stem);
    }
    if node.len() == 1 && node[0] == '@' {
        proof {
            assert(node@ =~= fruit());
            lemma_at_fruit(t, way);
            assert(paths_through(t, way).contains(way));
        }
        let value = way_to(tree, path, node);
        record(groups, value, Ghost(found));
        proof {
            assert(found.insert(way) =~= found + paths_through(t, way));
        }
        return Ghost(found.insert(way));
    }
    proof {
        assert(node@ != fruit()) by {
            if node@ == fruit() {
                assert(node@.len() == 1 && node@[0] == fruit()[0]);
            }
        }
    }
    let at = match limb_of(tree, node) {
        Some(at) => at,
        None => {
            proof {
                lemma_no_limb(t, way);
                assert(found + paths_through(t, way) =~= found);
            }
            return Ghost(found);
        },
    };
    proof {
        lemma_find_limb(t, node@);
    }
    if on_path[at] {
        proof {
            let i = choose|i: int| 0 <= i < path.len() && path[i] == at;
            assert(stem[i] == node@);
            lemma_circle(t, way);
            assert(found + paths_through(t, way) =~= found);
        }
        return Ghost(found);
    }
    proof {
        assert(!stem.contains(node@)) by {
            if stem.contains(node@) {
                let i = choose|i: int| 0 <= i < stem.len() && stem[i] == node@;
                assert(path[i] == at);
                assert(path@.contains(at));
            }
        }
        lemma_mark_added(on_path@, at as int);
        lemma_marked_in_bounded(on_path@.update(at as int, true));
    }
    path.push(at);
    on_path[at] = true;
    let ghost walked = path@;
    let ghost marks = on_path@;
    proof {
        assert(names(t, walked) =~= way);
        assert(on_the_way(t, walked, marks)) by {
            assert forall|k: int| 0 <= k < t.len() implies (#[trigger] marks[k]
                <==> walked.contains(k as usize)) by {
                if old(path)@.contains(k as usize) {
                    let i = choose|i: int| 0 <= i < old(path)@.len() && old(path)@[i] == k as usize;
                    assert(walked[i] == k as usize);
                }
                if k == at {
                    assert(walked[walked.len() - 1] == at);
                }
                if walked.contains(k as usize) && k != at {
                    let i = choose|i: int| 0 <= i < walked.len() && walked[i] == k as usize;
                    assert(old(path)@[i] == k as usize);
                }
            }
        }
        assert(t[at as int].1 == rows(tree[at as int].1@));
    }
    let places = &tree[at].1;
    let ghost list = rows(places@);
    let ghost mut current = found;
    let mut next: usize = 0;
    proof {
        assert(paths_beyond(t, way, list, 0) =~= Set::<Seq<Seq<char>>>::empty());
        assert(found + paths_beyond(t, way, list, 0) =~= found);
    }
    while next < places.len()
        invariant
            next <= places.len(),
            t == limbs(tree@),
            at < tree.len(),
            places == &tree[at as int].1,
            list == rows(places@),
            kids(t, node@) == Some(list),
            way == names(t, walked),
            way == stem.push(node@),
            is_way(t, way),
            node@ != fruit(),
            !way.drop_last().contains(way.last()),
            path@ == walked,
            on_path@ == marks,
            on_the_way(t, walked, marks),
            marked_in(marks) == marked_in(old(on_path)@) + 1,
            marked_in(marks) <= tree.len(),
            found.disjoint(paths_through(t, way)),
            current == found + paths_beyond(t, way, list, next as int),
            summed(groups@, current),
        decreases places.len() - next,
    {
        proof {
            lemma_next_place(t, way, list, next as int);
            assert(list[next as int] == places[next as int]@);
        }
        if !seen_before(places, next) {
            let ghost place = list[next as int];
            proof {
                assert(list.contains(place));
                lemma_way_goes_on(t, way, place);
                assert(current.disjoint(paths_through(t, way.push(place)))) by {
                    assert forall|one: Seq<Seq<char>>| !(current.contains(one) && paths_through(
                        t,
                        way.push(place),
                    ).contains(one)) by {
                        if found.contains(one) && is_path(t, one) && extends(
                            one,
                            way.push(place),
                        ) {
                            assert(one.take(way.len() as int) =~= one.take(
                                way.len() as int + 1,
                            ).take(way.len() as int));
                            assert(way.push(place).take(way.len() as int) =~= way);
                            assert(paths_through(t, way).contains(one));
                        }
                    }
                }
            }
            let grown = climb(tree, places[next].as_slice(), path, on_path, groups, Ghost(current));
            proof {
                current = grown@;
                assert(current =~= found + paths_beyond(t, way, list, next + 1));
            }
        } else {
            proof {
                assert(current =~= found + paths_beyond(t, way, list, next + 1));
            }
        }
        next += 1;
    }
    proof {
        lemma_branching(t, way);
    }
    path.pop();
    on_path[at] = false;
    proof {
        assert(path@ =~= old(path)@);
        assert(on_path@ =~= old(on_path)@);
    }
    Ghost(current)
}

/// `path` is the answer: the shortest of the paths that are alone with
/// their length.
pub open spec fn is_answer(tree: Seq<(Seq<char>, Seq<Seq<char>>)>, path: Seq<Seq<char>>) -> bool {
    &&& is_path(tree, path)
    &&& is_lonely(tree, path)
    &&& forall|other: Seq<Seq<char>>|
        is_path(tree, other) && #[trigger] is_lonely(tree, other) ==> path.len() <= other.len()
}

/// There is at most one answer.
pub proof fn answer_is_unique(
    tree: Seq<(Seq<char>, Seq<Seq<char>>)>,
    path: Seq<Seq<char>>,
    other: Seq<Seq<char>>,
)
    requires
        is_answer(tree, path),
        is_answer(tree, other),
    ensures
        path == other,
{
    assert(is_lonely(tree, other));
    assert(is_lonely(tree, path));
    assert(is_path(tree, other) && other.len() == path.len());
}

/// The path from the root to the fruit that no other path matches in
/// length; of several such paths the shortest.
pub fn find_unique_path(tree: &Tree) -> (found: Option<Vec<Node>>)
    ensures
        match found {
            Some(path) => is_answer(limbs(tree@), rows(path@)),
            None => forall|path: Seq<Seq<char>>| !is_answer(limbs(tree@), path),
        },
{
    let ghost t = limbs(tree@);
    let mut on_path: Vec<bool> = Vec::new();
    let mut at: usize = 0;
    while at < tree.len()
        invariant
            at <= tree.len(),
            on_path.len() == at,
            forall|k: int| 0 <= k < at ==> !(#[trigger] on_path@[k]),
        decreases tree.len() - at,
    {
        on_path.push(false);
        at += 1;
    }
    let mut path: Vec<usize> = Vec::new();
    let mut groups: Vec<(usize, Vec<Node>)> = Vec::new();
    let start = ['R', 'R'];
    let ghost way = names(t, path@).push(start@);
    proof {
        assert(start@ =~= root());
        assert(way.drop_last() =~= Seq::<Seq<char>>::empty());
        assert(is_way(t, way));
        assert(on_the_way(t, path@, on_path@));
        lemma_marked_in_bounded(on_path@);
    }
    let all = climb(tree, start.as_slice(), &mut path, &mut on_path, &mut groups, Ghost(Set::empty()));
    proof {
        assert forall|one: Seq<Seq<char>>| is_path(t, one) implies all@.contains(one) by {
            assert(one.take(1) =~= way);
            assert(paths_through(t, way).contains(one));
        }
        assert forall|one: Seq<Seq<char>>| all@.contains(one) implies is_path(t, one) by {
            assert(paths_through(t, way).contains(one));
        }
    }
    let mut len: usize = 0;
    while len < groups.len()
        invariant
            len <= groups.len(),
            t == limbs(tree@),
            summed(groups@, all@),
            forall|one: Seq<Seq<char>>| is_path(t, one) <==> all@.contains(one),
            forall|shorter: int| 0 <= shorter < len ==> (#[trigger] groups[shorter]).0 != 1,
        decreases groups.len() - len,
    {
        if groups[len].0 == 1 {
            let ghost first = rows(groups[len as int].1@);
            proof {
                assert(group_sums(groups[len as int], len as int, all@));
                assert(all@.contains(first) && is_path(t, first));
                assert forall|other: Seq<Seq<char>>| #[trigger]
                    is_path(t, other) && other.len() == first.len() implies other == first by {
                    assert(all@.contains(other));
                }
                assert(is_lonely(t, first));
                assert forall|other: Seq<Seq<char>>|
                    is_path(t, other) && #[trigger] is_lonely(t, other) implies first.len()
                    <= other.len() by {
                    if other.len() < len {
                        lemma_not_lonely(t, groups@, all@, other);
                    }
                }
                assert(is_answer(t, first));
            }
            let (_, path) = groups.remove(len);
            proof {
                assert(rows(path@) == first);
            }
            return Some(path);
        }
        len += 1;
    }
    proof {
        assert forall|one: Seq<Seq<char>>| !is_answer(t, one) by {
            if is_path(t, one) && is_lonely(t, one) {
                lemma_not_lonely(t, groups@, all@, one);
            }
        }
    }
    None
}

/// A path whose length is not counted once is not alone with its length.
proof fn lemma_not_lonely(
    tree: Seq<(Seq<char>, Seq<Seq<char>>)>,
    groups: Seq<(usize, Vec<Node>)>,
    all: Set<Seq<Seq<char>>>,
    path: Seq<Seq<char>>,
)
    requires
        summed(groups, all),
        forall|one: Seq<Seq<char>>| is_path(tree, one) <==> all.contains(one),
        is_path(tree, path),
        path.len() < groups.len() ==> groups[path.len() as int].0 != 1,
    ensures
        !is_lonely(tree, path),
{
    assert(all.contains(path));
    let len = path.len() as int;
    assert(group_sums(groups[len], len, all));
    let (one, other) = choose|one: Seq<Seq<char>>, other: Seq<Seq<char>>|
        all.contains(one) && all.contains(other) && one.len() == len && other.len() == len && one
            != other;
    if is_lonely(tree, path) {
        assert(is_path(tree, one) && one.len() == path.len());
        assert(is_path(tree, other) && other.len() == path.len());
    }
}

/// The names of `path`, one after the other.
pub open spec fn joined(path: Seq<Seq<char>>) -> Seq<char>
    decreases path.len(),
{
    if path.len() == 0 {
        Seq::empty()
    } else {
        joined(path.drop_last()) + path.last()
    }
}

/// The first characters of the names of `path`, one after the other;
/// names without a character add none.
pub open spec fn initials(path: Seq<Seq<char>>) -> Seq<char>
    decreases path.len(),
{
    if path.len() == 0 {
        Seq::empty()
    } else if path.last().len() == 0 {
        initials(path.drop_last())
    } else {
        initials(path.drop_last()).push(path.last()[0])
    }
}

/// The answer of a tree, if it has one.
pub open spec fn answer_path(tree: Seq<(Seq<char>, Seq<Seq<char>>)>) -> Option<Seq<Seq<char>>> {
    if exists|path: Seq<Seq<char>>| is_answer(tree, path) {
        Some(choose|path: Seq<Seq<char>>| is_answer(tree, path))
    } else {
        None
    }
}

/// The path to the one fruit that hangs at a length of its own, by the
/// tree that the text describes.
pub open spec fn path_outcome(input: Seq<char>) -> Result<Seq<Seq<char>>, QuestError> {
    match parse_outcome(input) {
        Ok(tree) => match answer_path(tree) {
            Some(path) => Ok(path),
            None => Err(QuestError::MalformedInput),
        },
        Err(error) => Err(error),
    }
}

/// Reads the tree and finds the path.
fn solve(input: &str) -> (outcome: Result<Vec<Node>, QuestError>)
    ensures
        match outcome {
            Ok(path) => path_outcome(input@) == Ok::<Seq<Seq<char>>, QuestError>(rows(path@)),
            Err(error) => path_outcome(input@) == Err::<Seq<Seq<char>>, QuestError>(error),
        },
{
    let tree = parse(input)?;
    match find_unique_path(&tree) {
        Some(path) => {
            proof {
                let chosen = choose|one: Seq<Seq<char>>| is_answer(limbs(tree@), one);
                answer_is_unique(limbs(tree@), rows(path@), chosen);
            }
            Ok(path)
        },
        None => Err(QuestError::MalformedInput),
    }
}

/// The tree puzzle with its title, its inputs and its solver.
pub fn assemble() -> (quest: Quest)
    ensures
        quest.title@ == "Quest 2024 6: The Tree of Titans"@,
        quest.input_loader@ == QuestInputLoader::with_quest_date_spec(2024, 6),
        forall|input: Seq<char>| quest.solution.first_answer(input) == #[trigger] first_of(6, input),
        forall|input: Seq<char>|
            quest.solution.second_answer(input) == #[trigger] second_of(6, input),
        forall|input: Seq<char>| quest.solution.third_answer(input) == #[trigger] third_of(6, input),
{
    let quest = Quest {
        title: "Quest 2024 6: The Tree of Titans".to_owned(),
        input_loader: QuestInputLoader::with_quest_date(2024, 6),
        solution: Box::new(Q2024_6),
    };
    proof {
        assert forall|input: Seq<char>|
            quest.solution.first_answer(input) == #[trigger] first_of(6, input) by {
            assert(first_of(6, input) == Q2024_6.first_answer(input));
        }
        assert forall|input: Seq<char>|
            quest.solution.second_answer(input) == #[trigger] second_of(6, input) by {
            assert(second_of(6, input) == Q2024_6.second_answer(input));
        }
        assert forall|input: Seq<char>|
            quest.solution.third_answer(input) == #[trigger] third_of(6, input) by {
            assert(third_of(6, input) == Q2024_6.third_answer(input));
        }
    }
    quest
}

/// The solver of the tree puzzle.
#[allow(non_camel_case_types)]
pub struct Q2024_6;

impl Solution for Q2024_6 {
    /// The names along the path, written together.
    open spec fn first_answer(&self, input: Seq<char>) -> Result<Seq<char>, QuestError> {
        match path_outcome(input) {
            Ok(path) => Ok(joined(path)),
            Err(error) => Err(error),
        }
    }

    /// The first characters of the names along the path.
    open spec fn second_answer(&self, input: Seq<char>) -> Result<Seq<char>, QuestError> {
        match path_outcome(input) {
            Ok(path) => Ok(initials(path)),
            Err(error) => Err(error),
        }
    }

    /// The same as the second answer.
    open spec fn third_answer(&self, input: Seq<char>) -> Result<Seq<char>, QuestError> {
        self.second_answer(input)
    }

    fn part_one(&self, input: &str) -> (answer: Result<String, QuestError>) {
        let path = solve(input)?;
        let mut text = String::new();
        let mut at: usize = 0;
        while at < path.len()
            invariant
                at <= path.len(),
                text@ == joined(rows(path@).take(at as int)),
            decreases path.len() - at,
        {
            proof {
                assert(rows(path@).take(at + 1).drop_last() =~= rows(path@).take(at as int));
                assert(rows(path@).take(at + 1).last() == path[at as int]@);
            }
            let name = string_of(path[at].as_slice());
            text.append(name.as_str());
            at += 1;
        }
        proof {
            assert(rows(path@).take(at as int) =~= rows(path@));
        }
        Ok(text)
    }

    fn part_two(&self, input: &str) -> (answer: Result<String, QuestError>) {
        let path = solve(input)?;
        let mut text = String::new();
        let mut at: usize = 0;
        while at < path.len()
            invariant
                at <= path.len(),
                text@ == initials(rows(path@).take(at as int)),
            decreases path.len() - at,
        {
            proof {
                assert(rows(path@).take(at + 1).drop_last() =~= rows(path@).take(at as int));
                assert(rows(path@).take(at + 1).last() == path[at as int]@);
            }
            if path[at].len() > 0 {
                text.push(path[at][0]);
            }
            at += 1;
        }
        proof {
            assert(rows(path@).take(at as int) =~= rows(path@));
        }
        Ok(text)
    }

    fn part_three(&self, input: &str) -> (answer: Result<String, QuestError>) {
        self.part_two(input)
    }
}

} // verus!
