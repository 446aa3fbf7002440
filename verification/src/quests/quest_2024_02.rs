//! Quest 2 of 2024: runic words in inscriptions.

use vstd::prelude::*;
use crate::common::Direction;
use crate::common::marks::{bits, count_marked, marked};
use crate::common::matching::{count_matches, is_covered, mark_matches, match_count, place};
use crate::common::numbers::{decimal, decimal_text};
use crate::common::strings::TrimmedSplit;
use crate::common::text::{
    char_width,
    reversed,
    rows,
    split,
    split_once,
    split_once_spec,
    split_spec,
    trim,
    trim_spec,
    trimmed_lines,
    utf8_width,
};
use crate::quests::{
    Quest,
    QuestError,
    QuestInputLoader,
    Solution,
    count_text,
    first_of,
    second_of,
    third_of,
    counted,
    text_of,
};

verus! {

/// The words that a line lists behind its first colon, separated by
/// commas. A line without a colon lists nothing.
pub open spec fn words_outcome(line: Seq<char>) -> Result<Seq<Seq<char>>, QuestError> {
    match split_once_spec(line, ':') {
        Some((_, list)) => Ok(split_spec(list, ',')),
        None => Err(QuestError::MalformedInput),
    }
}

/// The number of matches of all `words` in `text`, each word scanned for
/// by itself.
pub open spec fn total_matches(words: Seq<Seq<char>>, text: Seq<char>) -> nat
    decreases words.len(),
{
    if words.len() == 0 {
        0
    } else {
        total_matches(words.drop_last(), text) + match_count(text, words.last())
    }
}

/// What counting the words of `line` in `text` answers.
pub open spec fn words_count_outcome(line: Seq<char>, text: Seq<char>) -> Result<
    usize,
    QuestError,
> {
    match words_outcome(line) {
        Ok(words) => counted(total_matches(words, text)),
        Err(error) => Err(error),
    }
}

/// The symbols of `text` that belong to a word: a mark for every position
/// that lies in a match of one of `words`, read forwards or backwards.
pub open spec fn runic_map(words: Seq<Seq<char>>, text: Seq<char>) -> Seq<bool> {
    Seq::new(
        text.len(),
        |i: int| exists|w: int| 0 <= w < words.len() && is_covered(text, #[trigger] words[w], i),
    )
}

/// The bytes that the marked characters of `text` take.
pub open spec fn weight(text: Seq<char>, marks: Seq<bool>) -> nat
    decreases text.len(),
{
    if text.len() == 0 || marks.len() != text.len() {
        0
    } else {
        weight(text.drop_last(), marks.drop_last()) + if marks.last() {
            utf8_width(text.last())
        } else {
            0
        }
    }
}

/// The number of runic symbols in `text`, counted in bytes.
pub open spec fn symbols(words: Seq<Seq<char>>, text: Seq<char>) -> nat {
    weight(text, runic_map(words, text))
}

/// The number of runic symbols in all `texts`.
pub open spec fn total_symbols(words: Seq<Seq<char>>, texts: Seq<Seq<char>>) -> nat
    decreases texts.len(),
{
    if texts.len() == 0 {
        0
    } else {
        total_symbols(words, texts.drop_last()) + symbols(words, texts.last())
    }
}

proof fn lemma_total_matches_grow(words: Seq<Seq<char>>, text: Seq<char>, upto: int)
    requires
        0 <= upto <= words.len(),
    ensures
        total_matches(words.take(upto), text) <= total_matches(words, text),
    decreases words.len() - upto,
{
    if upto < words.len() {
        lemma_total_matches_grow(words, text, upto + 1);
        assert(words.take(upto + 1).drop_last() =~= words.take(upto));
    } else {
        assert(words.take(upto) =~= words);
    }
}

proof fn lemma_weight_grows(text: Seq<char>, marks: Seq<bool>, upto: int)
    requires
        0 <= upto <= text.len(),
        marks.len() == text.len(),
    ensures
        weight(text.take(upto), marks.take(upto)) <= weight(text, marks),
    decreases text.len() - upto,
{
    if upto < text.len() {
        lemma_weight_grows(text, marks, upto + 1);
        assert(text.take(upto + 1).drop_last() =~= text.take(upto));
        assert(marks.take(upto + 1).drop_last() =~= marks.take(upto));
    } else {
        assert(text.take(upto) =~= text);
        assert(marks.take(upto) =~= marks);
    }
}

proof fn lemma_total_symbols_grow(words: Seq<Seq<char>>, texts: Seq<Seq<char>>, upto: int)
    requires
        0 <= upto <= texts.len(),
    ensures
        total_symbols(words, texts.take(upto)) <= total_symbols(words, texts),
    decreases texts.len() - upto,
{
    if upto < texts.len() {
        lemma_total_symbols_grow(words, texts, upto + 1);
        assert(texts.take(upto + 1).drop_last() =~= texts.take(upto));
    } else {
        assert(texts.take(upto) =~= texts);
    }
}

/// The lines of the input, trimmed, without the blank ones.
pub fn split_input(input: &str) -> (lines: Vec<Vec<char>>)
    ensures
        rows(lines@) == trimmed_lines(input@),
{
    input.trimmed_split()
}

/// The words that `line` lists behind its first colon.
pub fn split_words(line: &[char]) -> (outcome: Result<Vec<Vec<char>>, QuestError>)
    ensures
        match outcome {
            Ok(words) => words_outcome(line@) == Ok::<Seq<Seq<char>>, QuestError>(rows(words@)),
            Err(error) => words_outcome(line@) == Err::<Seq<Seq<char>>, QuestError>(error),
        },
{
    match split_once(line, ':') {
        Some((_, list)) => Ok(split(list.as_slice(), ',')),
        None => Err(QuestError::MalformedInput),
    }
}

/// The number of matches of all `words` in `text`.
fn count_words(words: &Vec<Vec<char>>, text: &[char]) -> (outcome: Result<usize, QuestError>)
    ensures
        outcome == counted(total_matches(rows(words@), text@)),
{
    let ghost list = rows(words@);
    let mut total: usize = 0;
    let mut at: usize = 0;
    while at < words.len()
        invariant
            at <= words.len(),
            list == rows(words@),
            total == total_matches(list.take(at as int), text@),
        decreases words.len() - at,
    {
        proof {
            assert(list.take(at + 1).drop_last() =~= list.take(at as int));
            assert(list.take(at + 1).last() == words[at as int]@);
            lemma_total_matches_grow(list, text@, at + 1);
        }
        let sum = match count_matches(text, words[at].as_slice()) {
            Some(count) => total.checked_add(count),
            None => None,
        };
        match sum {
            Some(sum) => {
                total = sum;
            },
            None => {
                return Err(QuestError::ResourceExhaustion);
            },
        }
        at += 1;
    }
    proof {
        assert(list.take(at as int) =~= list);
    }
    Ok(total)
}

/// The number of matches in `text` of the words that the line `words`
/// lists.
pub fn words_count(words: &[char], text: &[char]) -> (outcome: Result<usize, QuestError>)
    ensures
        outcome == words_count_outcome(words@, text@),
{
    let words = split_words(words)?;
    count_words(&words, text)
}

/// The number of symbols of `text`, in bytes, that lie in a match of one
/// of `words`, read forwards or backwards.
pub fn symbols_count(words: &Vec<Vec<char>>, text: &[char]) -> (outcome: Result<
    usize,
    QuestError,
>)
    ensures
        outcome == counted(symbols(rows(words@), text@)),
{
    let ghost list = rows(words@);
    let turned = reversed(text);
    let mut marks: Vec<bool> = Vec::new();
    let mut at: usize = 0;
    while at < text.len()
        invariant
            at <= text.len(),
            marks.len() == at,
            forall|i: int| 0 <= i < at ==> !(#[trigger] marks@[i]),
        decreases text.len() - at,
    {
        marks.push(false);
        at += 1;
    }
    let mut w: usize = 0;
    while w < words.len()
        invariant
            w <= words.len(),
            list == rows(words@),
            turned@ == text@.reverse(),
            marks.len() == text.len(),
            forall|i: int|
                0 <= i < text.len() ==> (#[trigger] marks@[i] <==> exists|v: int|
                    0 <= v < w && is_covered(text@, #[trigger] list[v], i)),
        decreases words.len() - w,
    {
        let ghost before = marks@;
        mark_matches(text, words[w].as_slice(), &mut marks, false);
        let ghost between = marks@;
        mark_matches(turned.as_slice(), words[w].as_slice(), &mut marks, true);
        proof {
            assert(list[w as int] == words[w as int]@);
            assert forall|i: int| 0 <= i < text.len() implies (#[trigger] marks@[i] <==> exists|
                v: int,
            |
                0 <= v < w + 1 && is_covered(text@, #[trigger] list[v], i)) by {
                assert(marks@[i] <==> between[i] || crate::common::matching::covered_from(
                    turned@,
                    words[w as int]@,
                    0,
                ).contains(place(text.len() as int, i, true)));
                assert(between[i] <==> before[i] || crate::common::matching::covered_from(
                    text@,
                    words[w as int]@,
                    0,
                ).contains(place(text.len() as int, i, false)));
                assert(marks@[i] <==> before[i] || is_covered(text@, list[w as int], i));
                if before[i] {
                    let v = choose|v: int| 0 <= v < w && is_covered(text@, #[trigger] list[v], i);
                    assert(0 <= v < w + 1 && is_covered(text@, list[v], i));
                }
                if exists|v: int| 0 <= v < w + 1 && is_covered(text@, #[trigger] list[v], i) {
                    let v = choose|v: int|
                        0 <= v < w + 1 && is_covered(text@, #[trigger] list[v], i);
                    if v < w {
                        assert(before[i]);
                    }
                }
            }
        }
        w += 1;
    }
    proof {
        assert(marks@ =~= runic_map(list, text@));
    }
    let mut total: usize = 0;
    let mut at: usize = 0;
    while at < text.len()
        invariant
            at <= text.len(),
            marks.len() == text.len(),
            marks@ == runic_map(rows(words@), text@),
            total == weight(text@.take(at as int), marks@.take(at as int)),
        decreases text.len() - at,
    {
        proof {
            assert(text@.take(at + 1).drop_last() =~= text@.take(at as int));
            assert(marks@.take(at + 1).drop_last() =~= marks@.take(at as int));
            lemma_weight_grows(text@, marks@, at + 1);
        }
        if marks[at] {
            match total.checked_add(char_width(text[at])) {
                Some(sum) => {
                    total = sum;
                },
                None => {
                    return Err(QuestError::ResourceExhaustion);
                },
            }
        }
        at += 1;
    }
    proof {
        assert(text@.take(at as int) =~= text@);
        assert(marks@.take(at as int) =~= marks@);
    }
    Ok(total)
}

// ---------------------------------------------------------------------
// Words on a grid
// ---------------------------------------------------------------------
/// `cell`, as row and column, lies on the grid.
pub open spec fn lies_in(grid: Seq<Seq<char>>, cell: (int, int)) -> bool {
    &&& 0 <= cell.0 < grid.len()
    &&& 0 <= cell.1 < grid[cell.0].len()
}

/// The cell that follows `cell` in `direction`. Rows are rings: a step off
/// either end of a row leads to its other end. Columns are not.
pub open spec fn step(grid: Seq<Seq<char>>, cell: (int, int), direction: Direction) -> (int, int) {
    match direction {
        Direction::Up => (cell.0 - 1, cell.1),
        Direction::Down => (cell.0 + 1, cell.1),
        Direction::Left => (
            cell.0,
            if cell.1 == 0 {
                grid[cell.0].len() - 1
            } else {
                cell.1 - 1
            },
        ),
        Direction::Right => (
            cell.0,
            if cell.1 + 1 == grid[cell.0].len() {
                0
            } else {
                cell.1 + 1
            },
        ),
    }
}

/// The cell reached from `start` after `steps` steps in `direction`.
pub open spec fn path_cell(
    grid: Seq<Seq<char>>,
    start: (int, int),
    direction: Direction,
    steps: nat,
) -> (int, int)
    decreases steps,
{
    if steps == 0 {
        start
    } else {
        step(grid, path_cell(grid, start, direction, (steps - 1) as nat), direction)
    }
}

/// `cell` lies on the grid and holds `ch`.
pub open spec fn reads(grid: Seq<Seq<char>>, cell: (int, int), ch: char) -> bool {
    lies_in(grid, cell) && grid[cell.0][cell.1] == ch
}

/// `word` can be read from `start` in `direction`, one character a cell.
pub open spec fn spells(
    grid: Seq<Seq<char>>,
    start: (int, int),
    direction: Direction,
    word: Seq<char>,
) -> bool {
    forall|k: nat|
        k < word.len() ==> reads(grid, #[trigger] path_cell(grid, start, direction, k), word[k as int])
}

/// `cell` is one of the cells from which `word` is read, starting at
/// `start` and going in `direction`.
pub open spec fn covers(
    grid: Seq<Seq<char>>,
    word: Seq<char>,
    start: (int, int),
    direction: Direction,
    cell: (int, int),
) -> bool {
    &&& spells(grid, start, direction, word)
    &&& exists|k: nat| k < word.len() && #[trigger] path_cell(grid, start, direction, k) == cell
}

/// The four directions in which words are read.
pub open spec fn compass() -> Seq<Direction> {
    seq![Direction::Down, Direction::Up, Direction::Left, Direction::Right]
}

/// `cell` is part of `word`, read from `start` in one of the first `upto`
/// directions.
pub open spec fn covered_from_start(
    grid: Seq<Seq<char>>,
    word: Seq<char>,
    start: (int, int),
    upto: int,
    cell: (int, int),
) -> bool {
    exists|d: int| 0 <= d < upto && #[trigger] covers(grid, word, start, compass()[d], cell)
}

/// `start` comes before the cell `(row, col)` in reading order.
pub open spec fn comes_before(start: (int, int), row: int, col: int) -> bool {
    start.0 < row || (start.0 == row && start.1 < col)
}

/// `cell` is part of `word`, read from a start on the grid that comes
/// before `(row, col)`.
pub open spec fn covered_by_word(
    grid: Seq<Seq<char>>,
    word: Seq<char>,
    row: int,
    col: int,
    cell: (int, int),
) -> bool {
    exists|start: (int, int)|
        lies_in(grid, start) && comes_before(start, row, col) && #[trigger] covered_from_start(
            grid,
            word,
            start,
            4,
            cell,
        )
}

/// `cell` is a scale of the dragon: part of one of the first `upto` of
/// `words`, read from anywhere on the grid in any direction.
pub open spec fn covered_by_words(
    grid: Seq<Seq<char>>,
    words: Seq<Seq<char>>,
    upto: int,
    cell: (int, int),
) -> bool {
    exists|w: int|
        0 <= w < upto && covered_by_word(grid, #[trigger] words[w], grid.len() as int, 0, cell)
}

/// The map of the scales.
pub open spec fn scales_map(grid: Seq<Seq<char>>, words: Seq<Seq<char>>) -> Seq<Seq<bool>> {
    Seq::new(
        grid.len(),
        |r: int|
            Seq::new(
                grid[r].len(),
                |c: int| covered_by_words(grid, words, words.len() as int, (r, c)),
            ),
    )
}

/// Each of `pieces`, trimmed.
pub open spec fn all_trimmed(pieces: Seq<Seq<char>>) -> Seq<Seq<char>> {
    pieces.map_values(|piece: Seq<char>| trim_spec(piece))
}

/// `marks` has a mark for every cell of `matrix`.
spec fn shaped(marks: Seq<Vec<bool>>, matrix: Seq<Vec<char>>) -> bool {
    &&& marks.len() == matrix.len()
    &&& forall|r: int| 0 <= r < matrix.len() ==> (#[trigger] marks[r]).len() == matrix[r].len()
}

/// The mark of `cell`.
spec fn mark_at(marks: Seq<Vec<bool>>, cell: (int, int)) -> bool {
    marks[cell.0]@[cell.1]
}

/// Reads `target` from `(row, col)` in `direction` and answers the cells it
/// was read from, or nothing if it cannot be read there.
pub fn traverse(
    matrix: &Vec<Vec<char>>,
    row: usize,
    col: usize,
    direction: Direction,
    target: &[char],
) -> (found: Option<Vec<(usize, usize)>>)
    requires
        row < matrix.len(),
        col < matrix[row as int].len(),
    ensures
        found is Some <==> spells(rows(matrix@), (row as int, col as int), direction, target@),
        found is Some ==> {
            &&& found->Some_0.len() == target.len()
            &&& forall|k: nat|
                k < target.len() ==> {
                    &&& lies_in(rows(matrix@), #[trigger] path_cell(
                        rows(matrix@),
                        (row as int, col as int),
                        direction,
                        k,
                    ))
                    &&& (found->Some_0[k as int].0 as int, found->Some_0[k as int].1 as int)
                        == path_cell(rows(matrix@), (row as int, col as int), direction, k)
                }
        },
{
    let ghost grid = rows(matrix@);
    let ghost start = (row as int, col as int);
    let mut output: Vec<(usize, usize)> = Vec::new();
    let mut r: usize = row;
    let mut c: usize = col;
    let mut can_move = true;
    let mut k: usize = 0;
    while k < target.len()
        invariant
            k <= target.len(),
            grid == rows(matrix@),
            start == (row as int, col as int),
            row < matrix.len(),
            output.len() == k,
            can_move ==> path_cell(grid, start, direction, k as nat) == (r as int, c as int) && r
                < matrix.len(),
            can_move && (direction == Direction::Left || direction == Direction::Right) ==> r
                == row && c < matrix[row as int].len(),
            !can_move ==> !lies_in(grid, path_cell(grid, start, direction, k as nat)),
            forall|j: nat|
                j < k ==> {
                    &&& reads(grid, #[trigger] path_cell(grid, start, direction, j), target@[j as int])
                    &&& (output[j as int].0 as int, output[j as int].1 as int) == path_cell(
                        grid,
                        start,
                        direction,
                        j,
                    )
                },
        decreases target.len() - k,
    {
        proof {
            if can_move {
                assert(grid[r as int] == matrix[r as int]@);
            }
        }
        if !can_move || c >= matrix[r].len() || target[k] != matrix[r][c] {
            proof {
                assert(!reads(grid, path_cell(grid, start, direction, k as nat), target@[k as int]));
            }
            return None;
        }
        output.push((r, c));
        proof {
            assert(grid[row as int] == matrix[row as int]@);
        }
        match direction {
            Direction::Up => {
                if r > 0 {
                    r -= 1;
                } else {
                    can_move = false;
                }
            },
            Direction::Down => {
                if r + 1 < matrix.len() {
                    r += 1;
                } else {
                    can_move = false;
                }
            },
            Direction::Left => {
                if c == 0 {
                    c = matrix[r].len() - 1;
                } else {
                    c -= 1;
                }
            },
            Direction::Right => {
                if c + 1 == matrix[r].len() {
                    c = 0;
                } else {
                    c += 1;
                }
            },
        }
        k += 1;
    }
    Some(output)
}

/// Marks the cells from which `word` is read, starting at `(row, col)`.
fn mark_from(
    matrix: &Vec<Vec<char>>,
    marks: &mut Vec<Vec<bool>>,
    row: usize,
    col: usize,
    word: &[char],
)
    requires
        shaped(old(marks)@, matrix@),
        row < matrix.len(),
        col < matrix[row as int].len(),
    ensures
        shaped(final(marks)@, matrix@),
        forall|cell: (int, int)|
            lies_in(rows(matrix@), cell) ==> (#[trigger] mark_at(final(marks)@, cell) <==> mark_at(
                old(marks)@,
                cell,
            ) || covered_from_start(rows(matrix@), word@, (row as int, col as int), 4, cell)),
{
    let ghost grid = rows(matrix@);
    let ghost start = (row as int, col as int);
    let directions = [Direction::Down, Direction::Up, Direction::Left, Direction::Right];
    proof {
        assert(directions@ =~= compass());
    }
    let mut d: usize = 0;
    while d < 4
        invariant
            d <= 4,
            grid == rows(matrix@),
            start == (row as int, col as int),
            row < matrix.len(),
            col < matrix[row as int].len(),
            directions@ == compass(),
            shaped(marks@, matrix@),
            forall|cell: (int, int)|
                lies_in(grid, cell) ==> (#[trigger] mark_at(marks@, cell) <==> mark_at(
                    old(marks)@,
                    cell,
                ) || covered_from_start(grid, word@, start, d as int, cell)),
        decreases 4 - d,
    {
        let ghost before = marks@;
        let direction = directions[d];
        match traverse(matrix, row, col, direction, word) {
            Some(cells) => {
                let mut k: usize = 0;
                while k < cells.len()
                    invariant
                        k <= cells.len(),
                        grid == rows(matrix@),
                        cells.len() == word.len(),
                        shaped(marks@, matrix@),
                        shaped(before, matrix@),
                        forall|j: nat|
                            j < word.len() ==> {
                                &&& lies_in(grid, #[trigger] path_cell(grid, start, direction, j))
                                &&& (cells[j as int].0 as int, cells[j as int].1 as int)
                                    == path_cell(grid, start, direction, j)
                            },
                        forall|cell: (int, int)|
                            lies_in(grid, cell) ==> (#[trigger] mark_at(marks@, cell) <==> mark_at(
                                before,
                                cell,
                            ) || exists|j: nat|
                                j < k && #[trigger] path_cell(grid, start, direction, j) == cell),
                    decreases cells.len() - k,
                {
                    let (r, c) = cells[k];
                    let ghost earlier = marks@;
                    proof {
                        assert(lies_in(grid, path_cell(grid, start, direction, k as nat)));
                        assert(grid[r as int] == matrix[r as int]@);
                    }
                    marks[r][c] = true;
                    proof {
                        assert forall|cell: (int, int)| lies_in(grid, cell) implies (
                        #[trigger] mark_at(marks@, cell) <==> mark_at(before, cell) || exists|
                            j: nat,
                        |
                            j < k + 1 && #[trigger] path_cell(grid, start, direction, j) == cell) by {
                            assert(grid[cell.0] == matrix[cell.0]@);
                            assert(mark_at(marks@, cell) <==> mark_at(earlier, cell) || cell == (
                                r as int,
                                c as int,
                            ));
                            if mark_at(earlier, cell) && !mark_at(before, cell) {
                                let j = choose|j: nat|
                                    j < k && #[trigger] path_cell(grid, start, direction, j)
                                        == cell;
                                assert(j < k + 1 && path_cell(grid, start, direction, j) == cell);
                            }
                            if cell == (r as int, c as int) {
                                assert(path_cell(grid, start, direction, k as nat) == cell);
                            }
                            if exists|j: nat|
                                j < k + 1 && #[trigger] path_cell(grid, start, direction, j)
                                    == cell {
                                let j = choose|j: nat|
                                    j < k + 1 && #[trigger] path_cell(grid, start, direction, j)
                                        == cell;
                                if j < k {
                                    assert(mark_at(earlier, cell));
                                }
                            }
                        }
                    }
                    k += 1;
                }
                proof {
                    assert forall|cell: (int, int)| lies_in(grid, cell) implies (
                    #[trigger] mark_at(marks@, cell) <==> mark_at(before, cell) || covers(
                        grid,
                        word@,
                        start,
                        direction,
                        cell,
                    )) by {}
                }
            },
            None => {},
        }
        proof {
            assert forall|cell: (int, int)| lies_in(grid, cell) implies (#[trigger] mark_at(
                marks@,
                cell,
            ) <==> mark_at(old(marks)@, cell) || covered_from_start(
                grid,
                word@,
                start,
                d + 1,
                cell,
            )) by {
                assert(mark_at(marks@, cell) <==> mark_at(before, cell) || covers(
                    grid,
                    word@,
                    start,
                    compass()[d as int],
                    cell,
                ));
                if covered_from_start(grid, word@, start, d as int, cell) {
                    let e = choose|e: int|
                        0 <= e < d && #[trigger] covers(grid, word@, start, compass()[e], cell);
                    assert(0 <= e < d + 1 && covers(grid, word@, start, compass()[e], cell));
                }
                if covered_from_start(grid, word@, start, d + 1, cell) {
                    let e = choose|e: int|
                        0 <= e < d + 1 && #[trigger] covers(grid, word@, start, compass()[e], cell);
                    if e < d {
                        assert(covered_from_start(grid, word@, start, d as int, cell));
                    }
                }
            }
        }
        d += 1;
    }
}

/// Marks the cells from which `word` is read, starting anywhere.
fn mark_word(matrix: &Vec<Vec<char>>, marks: &mut Vec<Vec<bool>>, word: &[char])
    requires
        shaped(old(marks)@, matrix@),
    ensures
        shaped(final(marks)@, matrix@),
        forall|cell: (int, int)|
            lies_in(rows(matrix@), cell) ==> (#[trigger] mark_at(final(marks)@, cell) <==> mark_at(
                old(marks)@,
                cell,
            ) || covered_by_word(rows(matrix@), word@, matrix.len() as int, 0, cell)),
{
    let ghost grid = rows(matrix@);
    let mut r: usize = 0;
    while r < matrix.len()
        invariant
            r <= matrix.len(),
            grid == rows(matrix@),
            shaped(marks@, matrix@),
            forall|cell: (int, int)|
                lies_in(grid, cell) ==> (#[trigger] mark_at(marks@, cell) <==> mark_at(
                    old(marks)@,
                    cell,
                ) || covered_by_word(grid, word@, r as int, 0, cell)),
        decreases matrix.len() - r,
    {
        let mut c: usize = 0;
        while c < matrix[r].len()
            invariant
                r < matrix.len(),
                c <= matrix[r as int].len(),
                grid == rows(matrix@),
                shaped(marks@, matrix@),
                forall|cell: (int, int)|
                    lies_in(grid, cell) ==> (#[trigger] mark_at(marks@, cell) <==> mark_at(
                        old(marks)@,
                        cell,
                    ) || covered_by_word(grid, word@, r as int, c as int, cell)),
            decreases matrix[r as int].len() - c,
        {
            let ghost before = marks@;
            mark_from(matrix, marks, r, c, word);
            proof {
                let here = (r as int, c as int);
                assert(grid[r as int] == matrix[r as int]@);
                assert forall|cell: (int, int)| lies_in(grid, cell) implies (#[trigger] mark_at(
                    marks@,
                    cell,
                ) <==> mark_at(old(marks)@, cell) || covered_by_word(
                    grid,
                    word@,
                    r as int,
                    c + 1,
                    cell,
                )) by {
                    assert(mark_at(marks@, cell) <==> mark_at(before, cell) || covered_from_start(
                        grid,
                        word@,
                        here,
                        4,
                        cell,
                    ));
                    if covered_by_word(grid, word@, r as int, c as int, cell) {
                        let start = choose|start: (int, int)|
                            lies_in(grid, start) && comes_before(start, r as int, c as int)
                                && #[trigger] covered_from_start(grid, word@, start, 4, cell);
                        assert(comes_before(start, r as int, c + 1));
                    }
                    if covered_from_start(grid, word@, here, 4, cell) {
                        assert(lies_in(grid, here) && comes_before(here, r as int, c + 1));
                    }
                    if covered_by_word(grid, word@, r as int, c + 1, cell) {
                        let start = choose|start: (int, int)|
                            lies_in(grid, start) && comes_before(start, r as int, c + 1)
                                && #[trigger] covered_from_start(grid, word@, start, 4, cell);
                        if start != here {
                            assert(comes_before(start, r as int, c as int));
                        }
                    }
                }
            }
            c += 1;
        }
        proof {
            assert(grid[r as int] == matrix[r as int]@);
            assert forall|cell: (int, int)| lies_in(grid, cell) implies (covered_by_word(
                grid,
                word@,
                r as int,
                c as int,
                cell,
            ) <==> covered_by_word(grid, word@, r + 1, 0, cell)) by {
                if covered_by_word(grid, word@, r as int, c as int, cell) {
                    let start = choose|start: (int, int)|
                        lies_in(grid, start) && comes_before(start, r as int, c as int)
                            && #[trigger] covered_from_start(grid, word@, start, 4, cell);
                    assert(comes_before(start, r + 1, 0));
                }
                if covered_by_word(grid, word@, r + 1, 0, cell) {
                    let start = choose|start: (int, int)|
                        lies_in(grid, start) && comes_before(start, r + 1, 0)
                            && #[trigger] covered_from_start(grid, word@, start, 4, cell);
                    assert(comes_before(start, r as int, c as int));
                }
            }
        }
        r += 1;
    }
}

/// A map with a cell for every cell of `matrix`, none of them marked.
fn blank_marks(matrix: &Vec<Vec<char>>) -> (marks: Vec<Vec<bool>>)
    ensures
        shaped(marks@, matrix@),
        forall|cell: (int, int)| lies_in(rows(matrix@), cell) ==> !(#[trigger] mark_at(marks@, cell)),
{
    let mut marks: Vec<Vec<bool>> = Vec::new();
    let mut r: usize = 0;
    while r < matrix.len()
        invariant
            r <= matrix.len(),
            marks.len() == r,
            forall|i: int| 0 <= i < r ==> (#[trigger] marks[i]).len() == matrix[i].len(),
            forall|i: int, j: int| 0 <= i < r && 0 <= j < matrix[i].len() ==> !(#[trigger] marks[i]@[j]),
        decreases matrix.len() - r,
    {
        let mut cells: Vec<bool> = Vec::new();
        let mut c: usize = 0;
        while c < matrix[r].len()
            invariant
                r < matrix.len(),
                c <= matrix[r as int].len(),
                cells.len() == c,
                forall|j: int| 0 <= j < c ==> !(#[trigger] cells@[j]),
            decreases matrix[r as int].len() - c,
        {
            cells.push(false);
            c += 1;
        }
        marks.push(cells);
        r += 1;
    }
    proof {
        assert forall|cell: (int, int)| lies_in(rows(matrix@), cell) implies !(#[trigger] mark_at(
            marks@,
            cell,
        )) by {
            assert(rows(matrix@)[cell.0] == matrix[cell.0]@);
            assert(!marks[cell.0]@[cell.1]);
        }
    }
    marks
}

/// The number of scales on the grid `matrix`: the cells from which one of
/// `words` is read.
pub fn scales_count(matrix: &Vec<Vec<char>>, words: &Vec<Vec<char>>) -> (outcome: Result<
    usize,
    QuestError,
>)
    ensures
        outcome == counted(marked(scales_map(rows(matrix@), rows(words@)))),
{
    let ghost grid = rows(matrix@);
    let ghost list = rows(words@);
    let mut marks = blank_marks(matrix);
    let mut w: usize = 0;
    while w < words.len()
        invariant
            w <= words.len(),
            grid == rows(matrix@),
            list == rows(words@),
            shaped(marks@, matrix@),
            forall|cell: (int, int)|
                lies_in(grid, cell) ==> (#[trigger] mark_at(marks@, cell) <==> covered_by_words(
                    grid,
                    list,
                    w as int,
                    cell,
                )),
        decreases words.len() - w,
    {
        let ghost before = marks@;
        mark_word(matrix, &mut marks, words[w].as_slice());
        proof {
            assert(list[w as int] == words[w as int]@);
            assert forall|cell: (int, int)| lies_in(grid, cell) implies (#[trigger] mark_at(
                marks@,
                cell,
            ) <==> covered_by_words(grid, list, w + 1, cell)) by {
                assert(mark_at(marks@, cell) <==> mark_at(before, cell) || covered_by_word(
                    grid,
                    list[w as int],
                    grid.len() as int,
                    0,
                    cell,
                ));
                if covered_by_words(grid, list, w as int, cell) {
                    let v = choose|v: int|
                        0 <= v < w && covered_by_word(
                            grid,
                            #[trigger] list[v],
                            grid.len() as int,
                            0,
                            cell,
                        );
                    assert(0 <= v < w + 1);
                }
                if covered_by_words(grid, list, w + 1, cell) {
                    let v = choose|v: int|
                        0 <= v < w + 1 && covered_by_word(
                            grid,
                            #[trigger] list[v],
                            grid.len() as int,
                            0,
                            cell,
                        );
                    if v < w {
                        assert(covered_by_words(grid, list, w as int, cell));
                    }
                }
            }
        }
        w += 1;
    }
    proof {
        let map = scales_map(grid, list);
        assert(bits(marks@).len() == map.len());
        assert forall|r: int| 0 <= r < map.len() implies bits(marks@)[r] == map[r] by {
            assert(grid[r] == matrix[r]@);
            assert(marks[r].len() == matrix[r].len());
            assert forall|c: int| 0 <= c < map[r].len() implies bits(marks@)[r][c] == map[r][c] by {
                assert(lies_in(grid, (r, c)));
                assert(mark_at(marks@, (r, c)) == marks[r]@[c]);
            }
            assert(bits(marks@)[r] =~= map[r]);
        }
        assert(bits(marks@) =~= map);
    }
    match count_marked(&marks) {
        Some(count) => Ok(count),
        None => Err(QuestError::ResourceExhaustion),
    }
}

/// Each of `pieces`, trimmed.
fn trim_all(pieces: &Vec<Vec<char>>) -> (trimmed: Vec<Vec<char>>)
    ensures
        rows(trimmed@) == all_trimmed(rows(pieces@)),
{
    let mut trimmed: Vec<Vec<char>> = Vec::new();
    let mut at: usize = 0;
    while at < pieces.len()
        invariant
            at <= pieces.len(),
            trimmed.len() == at,
            forall|i: int| 0 <= i < at ==> (#[trigger] trimmed[i])@ == trim_spec(pieces[i]@),
        decreases pieces.len() - at,
    {
        trimmed.push(trim(pieces[at].as_slice()));
        at += 1;
    }
    proof {
        assert(rows(trimmed@) =~= all_trimmed(rows(pieces@)));
    }
    trimmed
}

/// All but the first of `lines`.
fn rest_of(lines: &Vec<Vec<char>>) -> (rest: Vec<Vec<char>>)
    requires
        lines.len() > 0,
    ensures
        rows(rest@) == rows(lines@).skip(1),
{
    let mut rest: Vec<Vec<char>> = Vec::new();
    let mut at: usize = 1;
    while at < lines.len()
        invariant
            1 <= at <= lines.len(),
            rest.len() == at - 1,
            forall|i: int| 0 <= i < at - 1 ==> (#[trigger] rest[i])@ == lines[i + 1]@,
        decreases lines.len() - at,
    {
        rest.push(lines[at].clone());
        at += 1;
    }
    proof {
        assert(rows(rest@) =~= rows(lines@).skip(1));
    }
    rest
}

/// The rune puzzle with its title, its inputs and its solver.
pub fn assemble_quest_2024_2() -> (quest: Quest)
    ensures
        quest.title@ == "Quest 2: The Runes of Power"@,
        quest.input_loader@ == QuestInputLoader::with_quest_date_spec(2024, 2),
        forall|input: Seq<char>| quest.solution.first_answer(input) == #[trigger] first_of(2, input),
        forall|input: Seq<char>|
            quest.solution.second_answer(input) == #[trigger] second_of(2, input),
        forall|input: Seq<char>| quest.solution.third_answer(input) == #[trigger] third_of(2, input),
{
    let quest = Quest {
        title: "Quest 2: The Runes of Power".to_owned(),
        input_loader: QuestInputLoader::with_quest_date(2024, 2),
        solution: Box::new(Q2024_2),
    };
    proof {
        assert forall|input: Seq<char>|
            quest.solution.first_answer(input) == #[trigger] first_of(2, input) by {
            assert(first_of(2, input) == Q2024_2.first_answer(input));
        }
        assert forall|input: Seq<char>|
            quest.solution.second_answer(input) == #[trigger] second_of(2, input) by {
            assert(second_of(2, input) == Q2024_2.second_answer(input));
        }
        assert forall|input: Seq<char>|
            quest.solution.third_answer(input) == #[trigger] third_of(2, input) by {
            assert(third_of(2, input) == Q2024_2.third_answer(input));
        }
    }
    quest
}

/// The solver of the rune puzzle.
#[allow(non_camel_case_types)]
pub struct Q2024_2;

/// The number of matches of the listed words in the one inscription.
pub open spec fn matches_answer(lines: Seq<Seq<char>>) -> Result<Seq<char>, QuestError> {
    if lines.len() != 2 {
        Err(QuestError::MalformedInput)
    } else {
        count_text(words_count_outcome(lines[0], lines[1]))
    }
}

/// The number of runic symbols in all the inscriptions.
pub open spec fn symbols_answer(lines: Seq<Seq<char>>) -> Result<Seq<char>, QuestError> {
    if lines.len() < 2 {
        Err(QuestError::MalformedInput)
    } else {
        match words_outcome(lines[0]) {
            Ok(words) => count_text(counted(total_symbols(words, lines.skip(1)))),
            Err(error) => Err(error),
        }
    }
}

/// The number of scales on the grid under the word list.
pub open spec fn scales_answer(lines: Seq<Seq<char>>) -> Result<Seq<char>, QuestError> {
    if lines.len() == 0 {
        Err(QuestError::MalformedInput)
    } else {
        match words_outcome(lines[0]) {
            Ok(words) => count_text(counted(marked(scales_map(lines.skip(1), all_trimmed(words))))),
            Err(error) => Err(error),
        }
    }
}

/// Counts the matches of the listed words in the one inscription.
pub fn answer_matches(lines: &Vec<Vec<char>>) -> (answer: Result<String, QuestError>)
    ensures
        text_of(answer) == matches_answer(rows(lines@)),
{
    if lines.len() != 2 {
        return Err(QuestError::MalformedInput);
    }
    proof {
        assert(rows(lines@)[0] == lines[0]@ && rows(lines@)[1] == lines[1]@);
    }
    let count = words_count(lines[0].as_slice(), lines[1].as_slice())?;
    Ok(decimal_text(count as u64))
}

/// Counts the runic symbols in all the inscriptions.
pub fn answer_symbols(lines: &Vec<Vec<char>>) -> (answer: Result<String, QuestError>)
    ensures
        text_of(answer) == symbols_answer(rows(lines@)),
{
    if lines.len() < 2 {
        return Err(QuestError::MalformedInput);
    }
    proof {
        assert(rows(lines@)[0] == lines[0]@);
    }
    let words = split_words(lines[0].as_slice())?;
    let ghost texts = rows(lines@).skip(1);
    let mut total: usize = 0;
    let mut at: usize = 1;
    proof {
        assert(texts.take(0) =~= Seq::<Seq<char>>::empty());
    }
    while at < lines.len()
        invariant
            1 <= at <= lines.len(),
            texts == rows(lines@).skip(1),
            words_outcome(rows(lines@)[0]) == Ok::<Seq<Seq<char>>, QuestError>(rows(words@)),
            total == total_symbols(rows(words@), texts.take(at - 1)),
        decreases lines.len() - at,
    {
        proof {
            assert(texts.take(at as int).drop_last() =~= texts.take(at - 1));
            assert(texts.take(at as int).last() == lines[at as int]@);
            lemma_total_symbols_grow(rows(words@), texts, at as int);
        }
        let sum = match symbols_count(&words, lines[at].as_slice()) {
            Ok(count) => total.checked_add(count),
            Err(_) => None,
        };
        match sum {
            Some(sum) => {
                total = sum;
            },
            None => {
                return Err(QuestError::ResourceExhaustion);
            },
        }
        at += 1;
    }
    proof {
        assert(texts.take(at - 1) =~= texts);
    }
    Ok(decimal_text(total as u64))
}

/// Counts the scales on the grid under the word list.
pub fn answer_scales(lines: &Vec<Vec<char>>) -> (answer: Result<String, QuestError>)
    ensures
        text_of(answer) == scales_answer(rows(lines@)),
{
    if lines.len() == 0 {
        return Err(QuestError::MalformedInput);
    }
    proof {
        assert(rows(lines@)[0] == lines[0]@);
    }
    let listed = split_words(lines[0].as_slice())?;
    let words = trim_all(&listed);
    let matrix = rest_of(lines);
    let count = scales_count(&matrix, &words)?;
    Ok(decimal_text(count as u64))
}

impl Solution for Q2024_2 {
    open spec fn first_answer(&self, input: Seq<char>) -> Result<Seq<char>, QuestError> {
        matches_answer(trimmed_lines(input))
    }

    open spec fn second_answer(&self, input: Seq<char>) -> Result<Seq<char>, QuestError> {
        symbols_answer(trimmed_lines(input))
    }

    open spec fn third_answer(&self, input: Seq<char>) -> Result<Seq<char>, QuestError> {
        scales_answer(trimmed_lines(input))
    }

    fn part_one(&self, input: &str) -> (answer: Result<String, QuestError>) {
        let data = split_input(input);
        answer_matches(&data)
    }

    fn part_two(&self, input: &str) -> (answer: Result<String, QuestError>) {
        let data = split_input(input);
        answer_symbols(&data)
    }

    fn part_three(&self, input: &str) -> (answer: Result<String, QuestError>) {
        let data = split_input(input);
        answer_scales(&data)
    }
}

} // verus!
