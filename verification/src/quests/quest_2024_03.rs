//! Quest 3 of 2024: earth dug away level by level.

use vstd::prelude::*;
use crate::common::marks::{
    bits,
    count_marked,
    map_within_has_fewer_marks,
    marked,
    within,
};
use crate::common::numbers::{decimal, decimal_text};
use crate::common::text::{chars_of, rows, split, split_spec};
use crate::quests::{Quest, QuestError, QuestInputLoader, Solution, first_of, second_of, text_of, third_of};

verus! {

/// A step from a cell to one of its neighbours, as rows and columns.
pub type Direction = (isize, isize);

/// The map of the earth in a diagram: a mark wherever a `#` stands.
pub open spec fn earth_map(grid: Seq<Seq<char>>) -> Seq<Seq<bool>> {
    Seq::new(grid.len(), |r: int| Seq::new(grid[r].len(), |c: int| grid[r][c] == '#'))
}

/// The cell reached from `cell` by `direction`.
pub open spec fn shifted(cell: (int, int), direction: Direction) -> (int, int) {
    (cell.0 + direction.0, cell.1 + direction.1)
}

/// `cell` lies on the map and is marked.
pub open spec fn holds(map: Seq<Seq<bool>>, cell: (int, int)) -> bool {
    &&& 0 <= cell.0 < map.len()
    &&& 0 <= cell.1 < map[cell.0].len()
    &&& map[cell.0][cell.1]
}

/// `cell` can be dug one level deeper: it is marked, and so are all its
/// neighbours in `directions`.
pub open spec fn is_enclosed(map: Seq<Seq<bool>>, directions: Seq<Direction>, cell: (int, int)) -> bool {
    &&& holds(map, cell)
    &&& forall|d: int|
        0 <= d < directions.len() ==> holds(map, shifted(cell, #[trigger] directions[d]))
}

/// The map of the cells that can be dug one level deeper than `map`.
pub open spec fn next_map(map: Seq<Seq<bool>>, directions: Seq<Direction>) -> Seq<Seq<bool>> {
    Seq::new(
        map.len(),
        |r: int| Seq::new(map[r].len(), |c: int| is_enclosed(map, directions, (r, c))),
    )
}

/// The map of the cells that are dug at `level`; the earth itself is
/// level zero.
pub open spec fn area_at(grid: Seq<Seq<char>>, directions: Seq<Direction>, level: nat) -> Seq<
    Seq<bool>,
>
    decreases level,
{
    if level == 0 {
        earth_map(grid)
    } else {
        next_map(area_at(grid, directions, (level - 1) as nat), directions)
    }
}

/// The number of blocks dug at `level`.
pub open spec fn population(grid: Seq<Seq<char>>, directions: Seq<Direction>, level: nat) -> nat {
    marked(area_at(grid, directions, level))
}

/// The number of blocks dug at the first `levels` levels.
pub open spec fn blocks_upto(grid: Seq<Seq<char>>, directions: Seq<Direction>, levels: nat) -> nat
    decreases levels,
{
    if levels == 0 {
        0
    } else {
        blocks_upto(grid, directions, (levels - 1) as nat) + population(
            grid,
            directions,
            (levels - 1) as nat,
        )
    }
}

/// `count` blocks are dug in all: the blocks of every level up to the
/// first one at which nothing is left to dig.
pub open spec fn digs_out(grid: Seq<Seq<char>>, directions: Seq<Direction>, count: nat) -> bool {
    exists|levels: nat|
        population(grid, directions, levels) == 0 && #[trigger] blocks_upto(
            grid,
            directions,
            levels,
        ) == count
}

/// The digging cannot be counted: it never ends, or there are more blocks
/// than the machine's integers hold.
pub open spec fn digging_is_boundless(grid: Seq<Seq<char>>, directions: Seq<Direction>) -> bool {
    ||| forall|levels: nat| #[trigger] population(grid, directions, levels) > 0
    ||| exists|levels: nat| #[trigger] blocks_upto(grid, directions, levels) > usize::MAX
}

/// The diagram that a text draws: its lines, as they stand.
pub open spec fn diagram(text: Seq<char>) -> Seq<Seq<char>> {
    split_spec(text, '\n')
}

/// The four neighbours that share a side with a cell.
pub open spec fn sides() -> Seq<Direction> {
    seq![(1isize, 0isize), (-1isize, 0isize), (0isize, 1isize), (0isize, -1isize)]
}

/// The eight neighbours that share a side or a corner with a cell.
pub open spec fn surroundings() -> Seq<Direction> {
    seq![
        (1isize, 0isize),
        (-1isize, 0isize),
        (0isize, 1isize),
        (0isize, -1isize),
        (1isize, 1isize),
        (-1isize, 1isize),
        (1isize, -1isize),
        (-1isize, -1isize),
    ]
}

// ---------------------------------------------------------------------
// Laws
// ---------------------------------------------------------------------
/// Digging never adds earth: each level lies within the one above it.
pub proof fn levels_shrink(grid: Seq<Seq<char>>, directions: Seq<Direction>, level: nat)
    ensures
        within(area_at(grid, directions, level + 1), area_at(grid, directions, level)),
        population(grid, directions, level + 1) <= population(grid, directions, level),
        population(grid, directions, level + 1) == population(grid, directions, level)
            ==> area_at(grid, directions, level + 1) == area_at(grid, directions, level),
{
    let outer = area_at(grid, directions, level);
    let inner = area_at(grid, directions, level + 1);
    assert(inner == next_map(outer, directions));
    assert(within(inner, outer));
    map_within_has_fewer_marks(inner, outer);
}

/// Deeper levels hold no more blocks than higher ones.
pub proof fn populations_fall(
    grid: Seq<Seq<char>>,
    directions: Seq<Direction>,
    upper: nat,
    lower: nat,
)
    requires
        upper <= lower,
    ensures
        population(grid, directions, lower) <= population(grid, directions, upper),
    decreases lower - upper,
{
    if upper < lower {
        populations_fall(grid, directions, upper, (lower - 1) as nat);
        levels_shrink(grid, directions, (lower - 1) as nat);
    }
}

/// Once a level is empty, so is every level below it, and the count of
/// blocks stays what it was: the number of blocks dug in all does not
/// depend on which empty level the counting stops at.
pub proof fn blocks_settle(
    grid: Seq<Seq<char>>,
    directions: Seq<Direction>,
    empty: nat,
    later: nat,
)
    requires
        population(grid, directions, empty) == 0,
        empty <= later,
    ensures
        population(grid, directions, later) == 0,
        blocks_upto(grid, directions, later) == blocks_upto(grid, directions, empty),
    decreases later - empty,
{
    populations_fall(grid, directions, empty, later);
    if empty < later {
        blocks_settle(grid, directions, empty, (later - 1) as nat);
    }
}

/// A level that repeats the one above it repeats for ever.
proof fn lemma_level_repeats(
    grid: Seq<Seq<char>>,
    directions: Seq<Direction>,
    level: nat,
    later: nat,
)
    requires
        area_at(grid, directions, level + 1) == area_at(grid, directions, level),
        level <= later,
    ensures
        area_at(grid, directions, later) == area_at(grid, directions, level),
    decreases later - level,
{
    if level < later {
        lemma_level_repeats(grid, directions, level, (later - 1) as nat);
        if later - 1 > level {
            assert(area_at(grid, directions, later) == next_map(
                area_at(grid, directions, (later - 1) as nat),
                directions,
            ));
        }
    }
}

// ---------------------------------------------------------------------
// Digging
// ---------------------------------------------------------------------
/// The map of the earth that `input` draws.
pub fn make_area(input: &str) -> (area: Vec<Vec<bool>>)
    ensures
        bits(area@) == earth_map(diagram(input@)),
{
    let chars = chars_of(input);
    let lines = split(chars.as_slice(), '\n');
    let ghost grid = rows(lines@);
    let mut area: Vec<Vec<bool>> = Vec::new();
    let mut r: usize = 0;
    while r < lines.len()
        invariant
            r <= lines.len(),
            grid == rows(lines@),
            area.len() == r,
            forall|i: int| 0 <= i < r ==> (#[trigger] area[i])@ == earth_map(grid)[i],
        decreases lines.len() - r,
    {
        let mut marks: Vec<bool> = Vec::new();
        let mut c: usize = 0;
        while c < lines[r].len()
            invariant
                r < lines.len(),
                c <= lines[r as int].len(),
                marks.len() == c,
                forall|j: int| 0 <= j < c ==> #[trigger] marks[j] == (lines[r as int][j] == '#'),
            decreases lines[r as int].len() - c,
        {
            marks.push(lines[r][c] == '#');
            c += 1;
        }
        proof {
            assert(grid[r as int] == lines[r as int]@);
            assert(marks@ =~= earth_map(grid)[r as int]);
        }
        area.push(marks);
        r += 1;
    }
    proof {
        assert(bits(area@) =~= earth_map(grid));
    }
    area
}

/// Whether the neighbour of `(row, col)` in `direction` is marked.
fn neighbour_holds(area: &Vec<Vec<bool>>, row: usize, col: usize, direction: Direction) -> (marked:
    bool)
    ensures
        marked == holds(bits(area@), shifted((row as int, col as int), direction)),
{
    let r = row as i128 + direction.0 as i128;
    let c = col as i128 + direction.1 as i128;
    if r < 0 || r >= area.len() as i128 {
        return false;
    }
    let r = r as usize;
    proof {
        assert(bits(area@)[r as int] == area[r as int]@);
    }
    if c < 0 || c >= area[r].len() as i128 {
        return false;
    }
    area[r][c as usize]
}

/// Whether `(row, col)` can be dug one level deeper.
fn enclosed(area: &Vec<Vec<bool>>, directions: &[Direction], row: usize, col: usize) -> (inside:
    bool)
    requires
        row < area.len(),
        col < area[row as int].len(),
    ensures
        inside == is_enclosed(bits(area@), directions@, (row as int, col as int)),
{
    proof {
        assert(bits(area@)[row as int] == area[row as int]@);
    }
    if !area[row][col] {
        return false;
    }
    let mut d: usize = 0;
    while d < directions.len()
        invariant
            d <= directions.len(),
            forall|i: int|
                0 <= i < d ==> holds(
                    bits(area@),
                    shifted((row as int, col as int), #[trigger] directions@[i]),
                ),
        decreases directions.len() - d,
    {
        if !neighbour_holds(area, row, col, directions[d]) {
            return false;
        }
        d += 1;
    }
    true
}

/// The map of the cells of `area` that can be dug one level deeper.
pub fn next_area(area: &Vec<Vec<bool>>, directions: &[Direction]) -> (result: Vec<Vec<bool>>)
    ensures
        bits(result@) == next_map(bits(area@), directions@),
{
    let ghost map = bits(area@);
    let mut result: Vec<Vec<bool>> = Vec::new();
    let mut r: usize = 0;
    while r < area.len()
        invariant
            r <= area.len(),
            map == bits(area@),
            result.len() == r,
            forall|i: int| 0 <= i < r ==> (#[trigger] result[i])@ == next_map(map, directions@)[i],
        decreases area.len() - r,
    {
        let mut marks: Vec<bool> = Vec::new();
        let mut c: usize = 0;
        while c < area[r].len()
            invariant
                r < area.len(),
                c <= area[r as int].len(),
                map == bits(area@),
                marks.len() == c,
                forall|j: int|
                    0 <= j < c ==> #[trigger] marks[j] == is_enclosed(map, directions@, (r as int, j)),
            decreases area[r as int].len() - c,
        {
            marks.push(enclosed(area, directions, r, c));
            c += 1;
        }
        proof {
            assert(map[r as int] == area[r as int]@);
            assert(marks@ =~= next_map(map, directions@)[r as int]);
        }
        result.push(marks);
        r += 1;
    }
    proof {
        assert(bits(result@) =~= next_map(map, directions@));
    }
    result
}

/// The number of blocks dug out of the earth that `input` draws, where a
/// cell can be dug deeper while all its neighbours in `directions` are as
/// deep as it is.
pub fn blocks_count(input: &str, directions: &[Direction]) -> (outcome: Result<usize, QuestError>)
    ensures
        match outcome {
            Ok(count) => digs_out(diagram(input@), directions@, count as nat),
            Err(error) => error == QuestError::ResourceExhaustion && digging_is_boundless(
                diagram(input@),
                directions@,
            ),
        },
{
    let ghost grid = diagram(input@);
    let ghost dirs = directions@;
    let mut area = make_area(input);
    let mut count = match count_marked(&area) {
        Some(count) => count,
        None => {
            proof {
                assert(blocks_upto(grid, dirs, 1) == blocks_upto(grid, dirs, 0) + population(
                    grid,
                    dirs,
                    0,
                ));
                assert(blocks_upto(grid, dirs, 1) > usize::MAX);
            }
            return Err(QuestError::ResourceExhaustion);
        },
    };
    let mut total = count;
    let ghost mut level: nat = 0;
    proof {
        assert(blocks_upto(grid, dirs, 1) == blocks_upto(grid, dirs, 0) + population(grid, dirs, 0));
    }
    while count > 0
        invariant
            grid == diagram(input@),
            dirs == directions@,
            bits(area@) == area_at(grid, dirs, level),
            count == population(grid, dirs, level),
            total == blocks_upto(grid, dirs, level + 1),
        decreases count,
    {
        let next = next_area(&area, directions);
        proof {
            levels_shrink(grid, dirs, level);
            assert(blocks_upto(grid, dirs, level + 2) == blocks_upto(grid, dirs, level + 1)
                + population(grid, dirs, level + 1));
        }
        let next_count = match count_marked(&next) {
            Some(count) => count,
            None => {
                return Err(QuestError::ResourceExhaustion);
            },
        };
        if next_count == count {
            proof {
                assert forall|levels: nat| #[trigger] population(grid, dirs, levels) > 0 by {
                    if levels <= level {
                        populations_fall(grid, dirs, levels, level);
                    } else {
                        lemma_level_repeats(grid, dirs, level, levels);
                    }
                }
            }
            return Err(QuestError::ResourceExhaustion);
        }
        total = match total.checked_add(next_count) {
            Some(sum) => sum,
            None => {
                proof {
                    assert(blocks_upto(grid, dirs, level + 2) > usize::MAX);
                }
                return Err(QuestError::ResourceExhaustion);
            },
        };
        area = next;
        count = next_count;
        proof {
            level = level + 1;
        }
    }
    proof {
        assert(blocks_upto(grid, dirs, level + 1) == blocks_upto(grid, dirs, level) + population(
            grid,
            dirs,
            level,
        ));
        assert(population(grid, dirs, level) == 0 && blocks_upto(grid, dirs, level) == total);
    }
    Ok(total)
}

/// The mining puzzle with its title, its inputs and its solver.
pub fn assemble() -> (quest: Quest)
    ensures
        quest.title@ == "Quest 3: Mining Maestro"@,
        quest.input_loader@ == QuestInputLoader::with_quest_date_spec(2024, 3),
        forall|input: Seq<char>| quest.solution.first_answer(input) == #[trigger] first_of(3, input),
        forall|input: Seq<char>|
            quest.solution.second_answer(input) == #[trigger] second_of(3, input),
        forall|input: Seq<char>| quest.solution.third_answer(input) == #[trigger] third_of(3, input),
{
    let quest = Quest {
        title: "Quest 3: Mining Maestro".to_owned(),
        input_loader: QuestInputLoader::with_quest_date(2024, 3),
        solution: Box::new(Q2024_3),
    };
    proof {
        assert forall|input: Seq<char>|
            quest.solution.first_answer(input) == #[trigger] first_of(3, input) by {
            assert(first_of(3, input) == Q2024_3.first_answer(input));
        }
        assert forall|input: Seq<char>|
            quest.solution.second_answer(input) == #[trigger] second_of(3, input) by {
            assert(second_of(3, input) == Q2024_3.second_answer(input));
        }
        assert forall|input: Seq<char>|
            quest.solution.third_answer(input) == #[trigger] third_of(3, input) by {
            assert(third_of(3, input) == Q2024_3.third_answer(input));
        }
    }
    quest
}

/// The solver of the mining puzzle.
#[allow(non_camel_case_types)]
pub struct Q2024_3;

/// The number of blocks dug out of `grid`, in decimal. Where the digging
/// cannot be counted there is no number: the levels repeat for ever, or the
/// blocks are too many.
pub open spec fn digging_answer(grid: Seq<Seq<char>>, directions: Seq<Direction>) -> Result<
    Seq<char>,
    QuestError,
> {
    if exists|levels: nat| population(grid, directions, levels) == 0 && blocks_upto(
        grid,
        directions,
        levels,
    ) <= usize::MAX {
        let levels = choose|levels: nat|
            population(grid, directions, levels) == 0 && blocks_upto(grid, directions, levels)
                <= usize::MAX;
        Ok(decimal(blocks_upto(grid, directions, levels)))
    } else {
        Err(QuestError::ResourceExhaustion)
    }
}

proof fn lemma_digging_answer(grid: Seq<Seq<char>>, directions: Seq<Direction>, count: usize)
    requires
        digs_out(grid, directions, count as nat),
    ensures
        digging_answer(grid, directions) == Ok::<Seq<char>, QuestError>(decimal(count as nat)),
{
    let found = choose|levels: nat|
        population(grid, directions, levels) == 0 && #[trigger] blocks_upto(
            grid,
            directions,
            levels,
        ) == count as nat;
    let chosen = choose|levels: nat|
        population(grid, directions, levels) == 0 && blocks_upto(grid, directions, levels)
            <= usize::MAX;
    if found <= chosen {
        blocks_settle(grid, directions, found, chosen);
    } else {
        blocks_settle(grid, directions, chosen, found);
    }
}

proof fn lemma_no_digging_answer(grid: Seq<Seq<char>>, directions: Seq<Direction>)
    requires
        digging_is_boundless(grid, directions),
    ensures
        digging_answer(grid, directions) == Err::<Seq<char>, QuestError>(
            QuestError::ResourceExhaustion,
        ),
{
    if exists|levels: nat| population(grid, directions, levels) == 0 && blocks_upto(
        grid,
        directions,
        levels,
    ) <= usize::MAX {
        let chosen = choose|levels: nat|
            population(grid, directions, levels) == 0 && blocks_upto(grid, directions, levels)
                <= usize::MAX;
        if forall|levels: nat| #[trigger] population(grid, directions, levels) > 0 {
            assert(population(grid, directions, chosen) > 0);
        } else {
            let over = choose|levels: nat| #[trigger]
                blocks_upto(grid, directions, levels) > usize::MAX;
            if over <= chosen {
                lemma_blocks_grow(grid, directions, over, chosen);
            } else {
                blocks_settle(grid, directions, chosen, over);
            }
        }
    }
}

proof fn lemma_blocks_grow(grid: Seq<Seq<char>>, directions: Seq<Direction>, fewer: nat, more: nat)
    requires
        fewer <= more,
    ensures
        blocks_upto(grid, directions, fewer) <= blocks_upto(grid, directions, more),
    decreases more - fewer,
{
    if fewer < more {
        lemma_blocks_grow(grid, directions, fewer, (more - 1) as nat);
    }
}

/// Digs along `directions` and writes the number of blocks.
fn dig(input: &str, directions: &[Direction]) -> (answer: Result<String, QuestError>)
    ensures
        text_of(answer) == digging_answer(diagram(input@), directions@),
{
    match blocks_count(input, directions) {
        Ok(count) => {
            proof {
                lemma_digging_answer(diagram(input@), directions@, count);
            }
            Ok(decimal_text(count as u64))
        },
        Err(error) => {
            proof {
                lemma_no_digging_answer(diagram(input@), directions@);
            }
            Err(error)
        },
    }
}

impl Solution for Q2024_3 {
    /// The blocks dug where a cell needs its four sides covered.
    open spec fn first_answer(&self, input: Seq<char>) -> Result<Seq<char>, QuestError> {
        digging_answer(diagram(input), sides())
    }

    /// The same as the first answer.
    open spec fn second_answer(&self, input: Seq<char>) -> Result<Seq<char>, QuestError> {
        self.first_answer(input)
    }

    /// The blocks dug where a cell needs its sides and corners covered.
    open spec fn third_answer(&self, input: Seq<char>) -> Result<Seq<char>, QuestError> {
        digging_answer(diagram(input), surroundings())
    }

    fn part_one(&self, input: &str) -> (answer: Result<String, QuestError>) {
        let directions: [Direction; 4] = [(1, 0), (-1, 0), (0, 1), (0, -1)];
        proof {
            assert(directions@ =~= sides());
        }
        dig(input, directions.as_slice())
    }

    fn part_two(&self, input: &str) -> (answer: Result<String, QuestError>) {
        self.part_one(input)
    }

    fn part_three(&self, input: &str) -> (answer: Result<String, QuestError>) {
        let directions: [Direction; 8] = [
            (1, 0),
            (-1, 0),
            (0, 1),
            (0, -1),
            (1, 1),
            (-1, 1),
            (1, -1),
            (-1, -1),
        ];
        proof {
            assert(directions@ =~= surroundings());
        }
        dig(input, directions.as_slice())
    }
}

} // verus!
