//! The track tracer: from a diagram to the actions met on one lap.

use vstd::prelude::*;
use crate::common::Direction;
use crate::common::text::{chars_of, is_space, is_whitespace, rows, split, split_spec};
use crate::quests::QuestError;
use crate::quests::quest_2024_07::action::{Action, action_of, parse_action};

verus! {

/// `cell`, as row and column, lies inside the diagram. Rows may differ in
/// length; what lies beyond the end of a row is outside.
pub open spec fn in_grid(grid: Seq<Seq<char>>, cell: (int, int)) -> bool {
    &&& 0 <= cell.0 < grid.len()
    &&& 0 <= cell.1 < grid[cell.0].len()
}

/// `cell` is part of the track: it lies inside the diagram and holds
/// something other than white space.
pub open spec fn on_track(grid: Seq<Seq<char>>, cell: (int, int)) -> bool {
    in_grid(grid, cell) && !is_whitespace(grid[cell.0][cell.1])
}

/// The cell next to `cell` in `direction`.
pub open spec fn neighbour(cell: (int, int), direction: Direction) -> (int, int) {
    match direction {
        Direction::Right => (cell.0, cell.1 + 1),
        Direction::Down => (cell.0 + 1, cell.1),
        Direction::Left => (cell.0, cell.1 - 1),
        Direction::Up => (cell.0 - 1, cell.1),
    }
}

/// A walk that has been through `visited` may enter `cell`.
pub open spec fn is_free(grid: Seq<Seq<char>>, visited: Seq<(int, int)>, cell: (int, int)) -> bool {
    on_track(grid, cell) && !visited.contains(cell)
}

/// Where a walk that has been through `visited`, and stands on its last
/// cell, goes next: to the first free neighbour, trying right, down, left
/// and up in this order. There is no next cell once no neighbour is free.
pub open spec fn next_cell(grid: Seq<Seq<char>>, visited: Seq<(int, int)>) -> Option<(int, int)>
    recommends
        visited.len() > 0,
{
    let here = visited.last();
    if is_free(grid, visited, neighbour(here, Direction::Right)) {
        Some(neighbour(here, Direction::Right))
    } else if is_free(grid, visited, neighbour(here, Direction::Down)) {
        Some(neighbour(here, Direction::Down))
    } else if is_free(grid, visited, neighbour(here, Direction::Left)) {
        Some(neighbour(here, Direction::Left))
    } else if is_free(grid, visited, neighbour(here, Direction::Up)) {
        Some(neighbour(here, Direction::Up))
    } else {
        None
    }
}

/// `path` is a walk from the top left corner: every cell after the first
/// is the one the rule sends the walk to.
pub open spec fn is_walk(grid: Seq<Seq<char>>, path: Seq<(int, int)>) -> bool {
    &&& path.len() > 0
    &&& path[0] == (0int, 0int)
    &&& forall|i: int| 0 < i < path.len() ==> next_cell(grid, path.take(i)) == Some(#[trigger] path[i])
}

/// `path` is the whole walk: it cannot go on.
pub open spec fn is_trace(grid: Seq<Seq<char>>, path: Seq<(int, int)>) -> bool {
    is_walk(grid, path) && next_cell(grid, path) is None
}

/// The walk has come back to the start: it ends on the first cell or next
/// to it.
pub open spec fn closes(path: Seq<(int, int)>) -> bool
    recommends
        path.len() > 0,
{
    let end = path.last();
    end == (0int, 0int) || end == (0int, 1int) || end == (1int, 0int)
}

/// The walk has been everywhere: no cell of the track is left out.
pub open spec fn covers(grid: Seq<Seq<char>>, path: Seq<(int, int)>) -> bool {
    forall|cell: (int, int)| #[trigger] on_track(grid, cell) ==> path.contains(cell)
}

/// The actions met along `path`: one for each cell entered, and a final
/// hold for the return to the start.
pub open spec fn actions_along(grid: Seq<Seq<char>>, path: Seq<(int, int)>) -> Seq<Action> {
    Seq::new(
        path.len(),
        |i: int|
            if i + 1 < path.len() {
                action_of(grid[path[i + 1].0][path[i + 1].1])
            } else {
                Action::Keep
            },
    )
}

/// The whole walk over `grid`.
pub open spec fn traced_path(grid: Seq<Seq<char>>) -> Seq<(int, int)> {
    choose|path: Seq<(int, int)>| is_trace(grid, path)
}

/// What tracing a diagram answers: the actions along the whole walk, if the
/// diagram has a first cell and the walk comes back to it after it has
/// been over the whole track. A walk that ends anywhere else, or sooner,
/// has met a dead end.
pub open spec fn tracing_outcome(grid: Seq<Seq<char>>) -> Result<Seq<Action>, QuestError> {
    if grid.len() == 0 || grid[0].len() == 0 || !closes(traced_path(grid)) || !covers(
        grid,
        traced_path(grid),
    ) {
        Err(QuestError::MalformedInput)
    } else {
        Ok(actions_along(grid, traced_path(grid)))
    }
}

/// The diagram that a text draws: its lines, as they stand.
pub open spec fn diagram(text: Seq<char>) -> Seq<Seq<char>> {
    split_spec(text, '\n')
}

// ---------------------------------------------------------------------
// Laws
// ---------------------------------------------------------------------
/// After the first cell a walk only enters cells of the track, and it
/// enters no cell twice.
pub proof fn walk_enters_each_cell_once(grid: Seq<Seq<char>>, path: Seq<(int, int)>)
    requires
        is_walk(grid, path),
    ensures
        path.no_duplicates(),
        forall|i: int| 0 < i < path.len() ==> on_track(grid, #[trigger] path[i]),
{
    assert forall|i: int| 0 < i < path.len() implies on_track(grid, #[trigger] path[i]) && forall|
        j: int,
    |
        0 <= j < i ==> path[j] != path[i] by {
        assert(next_cell(grid, path.take(i)) == Some(path[i]));
        assert(is_free(grid, path.take(i), path[i]));
        assert forall|j: int| 0 <= j < i implies path[j] != path[i] by {
            assert(path.take(i)[j] == path[j]);
        }
    }
    assert forall|i: int, j: int| 0 <= i < path.len() && 0 <= j < path.len() && i != j implies path[i]
        != path[j] by {
        if i < j {
            assert(on_track(grid, path[j]));
        } else {
            assert(on_track(grid, path[i]));
        }
    }
}

proof fn lemma_walks_agree(
    grid: Seq<Seq<char>>,
    path: Seq<(int, int)>,
    other: Seq<(int, int)>,
    upto: int,
)
    requires
        is_walk(grid, path),
        is_walk(grid, other),
        1 <= upto <= path.len(),
        upto <= other.len(),
    ensures
        path.take(upto) == other.take(upto),
    decreases upto,
{
    if upto == 1 {
        assert(path.take(1) =~= other.take(1));
    } else {
        lemma_walks_agree(grid, path, other, upto - 1);
        assert(next_cell(grid, path.take(upto - 1)) == Some(path[upto - 1]));
        assert(next_cell(grid, other.take(upto - 1)) == Some(other[upto - 1]));
        assert(path.take(upto) =~= path.take(upto - 1).push(path[upto - 1]));
        assert(other.take(upto) =~= other.take(upto - 1).push(other[upto - 1]));
    }
}

/// Tracing is determined by the diagram: there is at most one whole walk.
pub proof fn trace_is_unique(grid: Seq<Seq<char>>, path: Seq<(int, int)>, other: Seq<(int, int)>)
    requires
        is_trace(grid, path),
        is_trace(grid, other),
    ensures
        path == other,
{
    if path.len() < other.len() {
        lemma_walks_agree(grid, path, other, path.len() as int);
        assert(path.take(path.len() as int) =~= path);
        assert(next_cell(grid, other.take(path.len() as int)) == Some(other[path.len() as int]));
    } else if other.len() < path.len() {
        lemma_walks_agree(grid, path, other, other.len() as int);
        assert(other.take(other.len() as int) =~= other);
        assert(next_cell(grid, path.take(other.len() as int)) == Some(path[other.len() as int]));
    } else {
        lemma_walks_agree(grid, path, other, path.len() as int);
        assert(path.take(path.len() as int) =~= path);
        assert(other.take(other.len() as int) =~= other);
    }
}

/// The cells of the track, and the first cell with them.
pub open spec fn track_cells(grid: Seq<Seq<char>>) -> Set<(int, int)> {
    Set::new(|cell: (int, int)| on_track(grid, cell)).insert((0int, 0int))
}

/// A traced track has one action for every cell of the track: the walk
/// enters each cell once and leaves none out, so that the track is as long
/// as the track in the diagram has cells. It is never empty, and its last
/// action is the hold that stands for the return to the start.
pub proof fn traced_track_has_an_action_per_cell(grid: Seq<Seq<char>>)
    ensures
        tracing_outcome(grid) is Ok ==> {
            &&& is_trace(grid, traced_path(grid))
            &&& traced_path(grid).no_duplicates()
            &&& traced_path(grid).to_set() == track_cells(grid)
            &&& track_cells(grid).finite()
            &&& tracing_outcome(grid)->Ok_0.len() == track_cells(grid).len()
            &&& tracing_outcome(grid)->Ok_0.len() >= 1
            &&& tracing_outcome(grid)->Ok_0.last() == Action::Keep
        },
{
    if tracing_outcome(grid) is Ok {
        let path = traced_path(grid);
        lemma_trace_exists(grid);
        walk_enters_each_cell_once(grid, path);
        assert forall|cell: (int, int)| path.to_set().contains(cell) <==> track_cells(
            grid,
        ).contains(cell) by {
            if path.contains(cell) {
                let at = choose|at: int| 0 <= at < path.len() && path[at] == cell;
                if at > 0 {
                    assert(on_track(grid, path[at]));
                }
            }
            if cell == (0int, 0int) {
                assert(path[0] == cell);
            }
        }
        assert(path.to_set() =~= track_cells(grid));
        path.unique_seq_to_set();
    }
}

// ---------------------------------------------------------------------
// The walk
// ---------------------------------------------------------------------
/// Whoever can show a whole walk has shown the one that `traced_path`
/// names.
proof fn lemma_trace_found(grid: Seq<Seq<char>>, path: Seq<(int, int)>)
    requires
        is_trace(grid, path),
    ensures
        traced_path(grid) == path,
{
    trace_is_unique(grid, path, traced_path(grid));
}

/// Every diagram with a first cell has a whole walk.
proof fn lemma_trace_exists(grid: Seq<Seq<char>>)
    requires
        grid.len() > 0,
        grid[0].len() > 0,
    ensures
        is_trace(grid, traced_path(grid)),
{
    let start = seq![(0int, 0int)];
    assert(is_walk(grid, start));
    lemma_walk_finishes(grid, start);
}

/// The cells a walk that has been through `path` may still enter.
spec fn free_cells(grid: Seq<Seq<char>>, path: Seq<(int, int)>) -> Set<(int, int)> {
    Set::new(|cell: (int, int)| is_free(grid, path, cell))
}

/// A walk can always be finished: every step uses up a free cell.
proof fn lemma_walk_finishes(grid: Seq<Seq<char>>, path: Seq<(int, int)>)
    requires
        is_walk(grid, path),
    ensures
        exists|whole: Seq<(int, int)>| is_trace(grid, whole),
    decreases free_cells(grid, path).len(),
{
    match next_cell(grid, path) {
        None => {
            assert(is_trace(grid, path));
        },
        Some(cell) => {
            lemma_walk_grows(grid, path);
            lemma_free_cells_shrink(grid, path);
            lemma_walk_finishes(grid, path.push(cell));
        },
    }
}

/// A step leaves fewer cells free.
proof fn lemma_free_cells_shrink(grid: Seq<Seq<char>>, path: Seq<(int, int)>)
    requires
        next_cell(grid, path) is Some,
    ensures
        free_cells(grid, path.push(next_cell(grid, path)->Some_0)).len() < free_cells(
            grid,
            path,
        ).len(),
{
    let cell = next_cell(grid, path)->Some_0;
    let longer = path.push(cell);
    let free = free_cells(grid, path);
    let fewer = free_cells(grid, longer);
    lemma_free_cells_finite(grid, path);
    assert(is_free(grid, path, cell));
    assert(free.contains(cell));
    assert(longer[path.len() as int] == cell);
    assert(!fewer.contains(cell));
    assert forall|other: (int, int)| fewer.contains(other) implies free.contains(other) by {
        if path.contains(other) {
            let at = choose|at: int| 0 <= at < path.len() && path[at] == other;
            assert(longer[at] == other);
        }
    }
    assert(fewer.subset_of(free.remove(cell)));
    vstd::set_lib::lemma_len_subset(fewer, free.remove(cell));
}

/// A walk that goes where the rule sends it is still a walk.
proof fn lemma_walk_grows(grid: Seq<Seq<char>>, path: Seq<(int, int)>)
    requires
        is_walk(grid, path),
        next_cell(grid, path) is Some,
    ensures
        is_walk(grid, path.push(next_cell(grid, path)->Some_0)),
{
    let cell = next_cell(grid, path)->Some_0;
    let longer = path.push(cell);
    assert forall|i: int| 0 < i < longer.len() implies next_cell(grid, longer.take(i)) == Some(
        #[trigger] longer[i],
    ) by {
        if i < path.len() {
            assert(longer.take(i) =~= path.take(i));
            assert(longer[i] == path[i]);
        } else {
            assert(longer.take(i) =~= path);
        }
    }
}

/// Only finitely many cells are free: all of them lie inside the diagram.
proof fn lemma_free_cells_finite(grid: Seq<Seq<char>>, path: Seq<(int, int)>)
    ensures
        free_cells(grid, path).finite(),
{
    lemma_cells_finite(grid, grid.len() as int);
    let inside = cells_above(grid, grid.len() as int);
    assert(free_cells(grid, path).subset_of(inside));
    vstd::set_lib::lemma_len_subset(free_cells(grid, path), inside);
}

/// The cells of the first `upto` rows.
spec fn cells_above(grid: Seq<Seq<char>>, upto: int) -> Set<(int, int)> {
    Set::new(|cell: (int, int)| in_grid(grid, cell) && cell.0 < upto)
}

/// The first `upto` cells of a row.
spec fn cells_before(row: int, upto: int) -> Set<(int, int)> {
    Set::new(|cell: (int, int)| cell.0 == row && 0 <= cell.1 < upto)
}

proof fn lemma_row_finite(row: int, upto: int)
    requires
        upto >= 0,
    ensures
        cells_before(row, upto).finite(),
    decreases upto,
{
    if upto == 0 {
        assert(cells_before(row, upto) =~= Set::empty());
    } else {
        lemma_row_finite(row, upto - 1);
        assert(cells_before(row, upto) =~= cells_before(row, upto - 1).insert((row, upto - 1)));
    }
}

proof fn lemma_cells_finite(grid: Seq<Seq<char>>, upto: int)
    requires
        0 <= upto <= grid.len(),
    ensures
        cells_above(grid, upto).finite(),
    decreases upto,
{
    if upto == 0 {
        assert(cells_above(grid, upto) =~= Set::empty());
    } else {
        lemma_cells_finite(grid, upto - 1);
        lemma_row_finite(upto - 1, grid[upto - 1].len() as int);
        assert(cells_above(grid, upto) =~= cells_above(grid, upto - 1) + cells_before(
            upto - 1,
            grid[upto - 1].len() as int,
        ));
    }
}

/// `visited` has a cell for every cell of `grid`, and marks those that
/// `path` has been through.
spec fn records(visited: Seq<Vec<bool>>, grid: Seq<Vec<char>>, path: Seq<(int, int)>) -> bool {
    &&& visited.len() == grid.len()
    &&& forall|i: int| 0 <= i < grid.len() ==> (#[trigger] visited[i]).len() == grid[i].len()
    &&& forall|i: int, j: int|
        0 <= i < grid.len() && 0 <= j < grid[i].len() ==> (#[trigger] visited[i][j]
            <==> path.contains((i, j)))
}

/// `output` holds the actions of the cells that `path` has entered after
/// its first.
#[verifier::opaque]
spec fn follows(output: Seq<Action>, grid: Seq<Seq<char>>, path: Seq<(int, int)>) -> bool {
    &&& output.len() + 1 == path.len()
    &&& forall|k: int|
        0 <= k < output.len() ==> #[trigger] output[k] == action_of(
            grid[path[k + 1].0][path[k + 1].1],
        )
}

/// `path` is a walk over `grid` that stands on `here`.
#[verifier::opaque]
spec fn walks_to(grid: Seq<Seq<char>>, path: Seq<(int, int)>, here: (int, int)) -> bool {
    is_walk(grid, path) && path.last() == here
}

proof fn lemma_walk_starts(grid: Seq<Seq<char>>)
    ensures
        walks_to(grid, seq![(0int, 0int)], (0int, 0int)),
        follows(Seq::empty(), grid, seq![(0int, 0int)]),
{
    reveal(walks_to);
    reveal(follows);
}

proof fn lemma_walk_steps(
    grid: Seq<Seq<char>>,
    path: Seq<(int, int)>,
    here: (int, int),
    output: Seq<Action>,
    cell: (int, int),
)
    requires
        walks_to(grid, path, here),
        follows(output, grid, path),
        next_cell(grid, path) == Some(cell),
    ensures
        walks_to(grid, path.push(cell), cell),
        follows(output.push(action_of(grid[cell.0][cell.1])), grid, path.push(cell)),
        free_cells(grid, path.push(cell)).len() < free_cells(grid, path).len(),
{
    reveal(walks_to);
    reveal(follows);
    lemma_walk_grows(grid, path);
    lemma_free_cells_shrink(grid, path);
}

proof fn lemma_walk_ends(
    grid: Seq<Seq<char>>,
    path: Seq<(int, int)>,
    here: (int, int),
    output: Seq<Action>,
)
    requires
        walks_to(grid, path, here),
        follows(output, grid, path),
        next_cell(grid, path) is None,
    ensures
        traced_path(grid) == path,
        path.len() > 0,
        path.last() == here,
        output.push(Action::Keep) == actions_along(grid, path),
{
    reveal(walks_to);
    reveal(follows);
    lemma_trace_found(grid, path);
    assert(output.push(Action::Keep) =~= actions_along(grid, path));
}

/// A table with a cell for every cell of `grid`, none of them entered.
fn blank_table(grid: &Vec<Vec<char>>) -> (table: Vec<Vec<bool>>)
    ensures
        records(table@, grid@, Seq::empty()),
{
    let mut table: Vec<Vec<bool>> = Vec::new();
    let mut row: usize = 0;
    while row < grid.len()
        invariant
            row <= grid.len(),
            table.len() == row,
            forall|i: int| 0 <= i < row ==> (#[trigger] table[i]).len() == grid[i].len(),
            forall|i: int, j: int| 0 <= i < row && 0 <= j < grid[i].len() ==> !(#[trigger] table[i][j]),
        decreases grid.len() - row,
    {
        let mut cells: Vec<bool> = Vec::new();
        let mut col: usize = 0;
        while col < grid[row].len()
            invariant
                row < grid.len(),
                col <= grid[row as int].len(),
                cells.len() == col,
                forall|j: int| 0 <= j < col ==> !(#[trigger] cells[j]),
            decreases grid[row as int].len() - col,
        {
            cells.push(false);
            col += 1;
        }
        table.push(cells);
        row += 1;
    }
    table
}

/// Marks the cell that the walk enters.
fn enter(
    visited: &mut Vec<Vec<bool>>,
    grid: &Vec<Vec<char>>,
    row: usize,
    col: usize,
    Ghost(path): Ghost<Seq<(int, int)>>,
)
    requires
        records(old(visited)@, grid@, path),
        row < grid.len(),
        col < grid[row as int].len(),
    ensures
        records(final(visited)@, grid@, path.push((row as int, col as int))),
{
    let ghost longer = path.push((row as int, col as int));
    proof {
        assert forall|i: int, j: int|
            0 <= i < grid.len() && 0 <= j < grid[i].len() implies (longer.contains((i, j))
            <==> path.contains((i, j)) || (i, j) == (row as int, col as int)) by {
            if path.contains((i, j)) {
                let at = choose|at: int| 0 <= at < path.len() && path[at] == (i, j);
                assert(longer[at] == (i, j));
            }
            if (i, j) == (row as int, col as int) {
                assert(longer[path.len() as int] == (i, j));
            }
        }
    }
    visited[row][col] = true;
}

/// The neighbour of a cell in `direction`, if it lies inside the diagram.
fn step_from(grid: &Vec<Vec<char>>, row: usize, col: usize, direction: Direction) -> (target:
    Option<(usize, usize)>)
    requires
        row < grid.len(),
        col < grid[row as int].len(),
    ensures
        match target {
            Some((r, c)) => {
                &&& (r as int, c as int) == neighbour((row as int, col as int), direction)
                &&& r < grid.len()
                &&& c < grid[r as int].len()
            },
            None => !in_grid(rows(grid@), neighbour((row as int, col as int), direction)),
        },
{
    match direction {
        Direction::Right => if col + 1 < grid[row].len() {
            Some((row, col + 1))
        } else {
            None
        },
        Direction::Down => if row + 1 < grid.len() && col < grid[row + 1].len() {
            Some((row + 1, col))
        } else {
            None
        },
        Direction::Left => if col > 0 {
            Some((row, col - 1))
        } else {
            None
        },
        Direction::Up => if row > 0 && col < grid[row - 1].len() {
            Some((row - 1, col))
        } else {
            None
        },
    }
}

/// The cell the walk goes to from `(row, col)`, if any.
fn find_next(
    grid: &Vec<Vec<char>>,
    visited: &Vec<Vec<bool>>,
    row: usize,
    col: usize,
    Ghost(path): Ghost<Seq<(int, int)>>,
) -> (target: Option<(usize, usize)>)
    requires
        row < grid.len(),
        col < grid[row as int].len(),
        path.len() > 0,
        path.last() == (row as int, col as int),
        records(visited@, grid@, path),
    ensures
        match target {
            Some((r, c)) => {
                &&& next_cell(rows(grid@), path) == Some((r as int, c as int))
                &&& r < grid.len()
                &&& c < grid[r as int].len()
            },
            None => next_cell(rows(grid@), path) is None,
        },
{
    let directions = Direction::all_clockwise();
    let ghost here = (row as int, col as int);
    let mut tried: usize = 0;
    proof {
        assert(Direction::clockwise()[0] == Direction::Right);
        assert(Direction::clockwise()[1] == Direction::Down);
        assert(Direction::clockwise()[2] == Direction::Left);
        assert(Direction::clockwise()[3] == Direction::Up);
    }
    while tried < 4
        invariant
            tried <= 4,
            row < grid.len(),
            col < grid[row as int].len(),
            path.len() > 0,
            path.last() == here,
            here == (row as int, col as int),
            directions@ == Direction::clockwise(),
            records(visited@, grid@, path),
            forall|d: int|
                0 <= d < tried ==> !is_free(
                    rows(grid@),
                    path,
                    neighbour(here, #[trigger] Direction::clockwise()[d]),
                ),
        decreases 4 - tried,
    {
        let direction = directions[tried];
        if let Some((r, c)) = step_from(grid, row, col, direction) {
            proof {
                assert(rows(grid@)[r as int] == grid[r as int]@);
            }
            if !is_space(grid[r][c]) && !visited[r][c] {
                proof {
                    assert(is_free(rows(grid@), path, (r as int, c as int)));
                    assert(forall|d: int|
                        0 <= d < tried ==> !is_free(
                            rows(grid@),
                            path,
                            neighbour(here, #[trigger] Direction::clockwise()[d]),
                        ));
                }
                return Some((r, c));
            }
        }
        tried += 1;
    }
    None
}

/// Whether the walk has entered every cell of the track.
fn all_entered(grid: &Vec<Vec<char>>, visited: &Vec<Vec<bool>>, Ghost(path): Ghost<Seq<(int, int)>>) -> (
    all: bool)
    requires
        records(visited@, grid@, path),
    ensures
        all == covers(rows(grid@), path),
{
    let mut row: usize = 0;
    while row < grid.len()
        invariant
            row <= grid.len(),
            records(visited@, grid@, path),
            forall|cell: (int, int)|
                #[trigger] on_track(rows(grid@), cell) && cell.0 < row ==> path.contains(cell),
        decreases grid.len() - row,
    {
        let mut col: usize = 0;
        proof {
            assert(rows(grid@)[row as int] == grid[row as int]@);
        }
        while col < grid[row].len()
            invariant
                row < grid.len(),
                col <= grid[row as int].len(),
                records(visited@, grid@, path),
                forall|cell: (int, int)|
                    #[trigger] on_track(rows(grid@), cell) && (cell.0 < row || (cell.0 == row
                        && cell.1 < col)) ==> path.contains(cell),
            decreases grid[row as int].len() - col,
        {
            proof {
                assert(rows(grid@)[row as int] == grid[row as int]@);
            }
            if !is_space(grid[row][col]) && !visited[row][col] {
                proof {
                    assert(on_track(rows(grid@), (row as int, col as int)));
                }
                return false;
            }
            col += 1;
        }
        row += 1;
    }
    true
}

/// Walks the track drawn in `grid` from its top left corner and answers
/// the actions met on the way.
pub fn trace_track(grid: &Vec<Vec<char>>) -> (outcome: Result<Vec<Action>, QuestError>)
    ensures
        match outcome {
            Ok(track) => tracing_outcome(rows(grid@)) == Ok::<Seq<Action>, QuestError>(track@),
            Err(error) => tracing_outcome(rows(grid@)) == Err::<Seq<Action>, QuestError>(error),
        },
{
    if grid.len() == 0 || grid[0].len() == 0 {
        return Err(QuestError::MalformedInput);
    }
    let ghost lines = rows(grid@);
    let mut visited = blank_table(grid);
    let mut output: Vec<Action> = Vec::new();
    let mut row: usize = 0;
    let mut col: usize = 0;
    let ghost mut path: Seq<(int, int)> = seq![(0int, 0int)];
    enter(&mut visited, grid, 0, 0, Ghost(Seq::empty()));
    proof {
        assert(Seq::<(int, int)>::empty().push((0int, 0int)) =~= path);
        assert(lines[0] == grid[0]@);
        lemma_walk_starts(lines);
    }
    loop
        invariant
            lines == rows(grid@),
            row < grid.len(),
            col < grid[row as int].len(),
            path.len() > 0,
            walks_to(lines, path, (row as int, col as int)),
            records(visited@, grid@, path),
            follows(output@, lines, path),
        ensures
            walks_to(lines, path, (row as int, col as int)),
            follows(output@, lines, path),
            records(visited@, grid@, path),
            next_cell(lines, path) is None,
        decreases free_cells(lines, path).len(),
    {
        proof {
            reveal(walks_to);
        }
        match find_next(grid, &visited, row, col, Ghost(path)) {
            None => {
                break ;
            },
            Some((r, c)) => {
                proof {
                    assert(lines[r as int] == grid[r as int]@);
                    lemma_walk_steps(
                        lines,
                        path,
                        (row as int, col as int),
                        output@,
                        (r as int, c as int),
                    );
                }
                enter(&mut visited, grid, r, c, Ghost(path));
                output.push(parse_action(grid[r][c]));
                row = r;
                col = c;
                proof {
                    path = path.push((r as int, c as int));
                }
            },
        }
    }
    proof {
        lemma_walk_ends(lines, path, (row as int, col as int), output@);
        assert(lines[0] == grid[0]@);
    }
    if ((row == 0 && col <= 1) || (row == 1 && col == 0)) && all_entered(
        grid,
        &visited,
        Ghost(path),
    ) {
        output.push(Action::Keep);
        Ok(output)
    } else {
        Err(QuestError::MalformedInput)
    }
}

/// Reads the track off a diagram: the lines of `input` are the rows, white
/// space is ground, and everything else is track.
pub fn parse_racetrack(input: &str) -> (outcome: Result<Vec<Action>, QuestError>)
    ensures
        match outcome {
            Ok(track) => tracing_outcome(diagram(input@)) == Ok::<Seq<Action>, QuestError>(track@),
            Err(error) => tracing_outcome(diagram(input@)) == Err::<Seq<Action>, QuestError>(error),
        },
{
    let chars = chars_of(input);
    let grid = split(chars.as_slice(), '\n');
    trace_track(&grid)
}

} // verus!
