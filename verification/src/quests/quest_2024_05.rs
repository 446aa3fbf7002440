//! Quest 5 of 2024: a clapping dance in columns.

use std::collections::{HashMap, HashSet};
use vstd::prelude::*;
use crate::common::Vec2;
use crate::common::numbers::{
    decimal,
    decimal_reads_back,
    decimal_text,
    digit_value,
    is_digit,
    is_number,
    number_of,
    parse_number,
    push_decimal,
    unsigned_digits,
};
use crate::common::text::{chars_of, lines_of, rows, split, split_spec, string_of, trimmed_lines};
use crate::quests::{Quest, QuestError, QuestInputLoader, Solution, first_of, second_of, text_of, third_of};

verus! {

/// The number on a dancer.
pub type Int = u64;

/// The columns of a dance, as sequences.
pub open spec fn columns(data: Seq<Vec<Int>>) -> Seq<Seq<Int>> {
    data.map_values(|column: Vec<Int>| column@)
}

/// Where a dancer with `value` joins a column of `len` dancers: the dancer
/// walks down the left side and up the right side, clapping once for each
/// place, and stands in front of the place of the last clap on the left
/// side, behind it on the right side.
pub open spec fn landing(value: nat, len: nat) -> nat
    recommends
        value >= 1,
        len >= 1,
{
    let pos = ((value - 1) % (2 * len) as int) as nat;
    if pos > len {
        (2 * len - pos) as nat
    } else {
        pos
    }
}

/// The columns after the move of round `step`: the first dancer of the
/// column whose turn it is leaves it and joins the next column. No move is
/// possible without a dancer to move, with a dancer numbered zero, or to
/// an empty column.
pub open spec fn moved(cols: Seq<Seq<Int>>, step: nat) -> Option<Seq<Seq<Int>>> {
    if cols.len() == 0 {
        None
    } else {
        let from = (step % cols.len()) as int;
        let to = ((from + 1) % cols.len() as int) as int;
        if cols[from].len() == 0 || cols[from][0] == 0 {
            None
        } else {
            let lifted = cols.update(from, cols[from].drop_first());
            if lifted[to].len() == 0 {
                None
            } else {
                Some(
                    lifted.update(
                        to,
                        lifted[to].insert(
                            landing(cols[from][0] as nat, lifted[to].len()) as int,
                            cols[from][0],
                        ),
                    ),
                )
            }
        }
    }
}

/// The columns after the first `steps` rounds.
pub open spec fn danced(cols: Seq<Seq<Int>>, steps: nat) -> Option<Seq<Seq<Int>>>
    decreases steps,
{
    if steps == 0 {
        Some(cols)
    } else {
        match danced(cols, (steps - 1) as nat) {
            Some(before) => moved(before, (steps - 1) as nat),
            None => None,
        }
    }
}

/// What the dancers shout: the numbers of the first dancers of all
/// columns, written one after the other. Nothing is shouted while a
/// column stands empty.
pub open spec fn shout(cols: Seq<Seq<Int>>) -> Option<Seq<char>>
    decreases cols.len(),
{
    if cols.len() == 0 {
        Some(Seq::empty())
    } else {
        match shout(cols.drop_last()) {
            Some(before) => if cols.last().len() > 0 {
                Some(before + decimal(cols.last()[0] as nat))
            } else {
                None
            },
            None => None,
        }
    }
}

/// The numbers that a line writes, separated by single spaces.
pub open spec fn row_outcome(tokens: Seq<Seq<char>>) -> Result<Seq<Int>, QuestError>
    decreases tokens.len(),
{
    if tokens.len() == 0 {
        Ok(Seq::empty())
    } else {
        let token = tokens.last();
        match row_outcome(tokens.drop_last()) {
            Ok(before) => if is_number(token) && number_of(unsigned_digits(token)) <= u64::MAX {
                Ok(before.push(number_of(unsigned_digits(token)) as u64))
            } else {
                Err(QuestError::MalformedInput)
            },
            Err(error) => Err(error),
        }
    }
}

/// The rows that `lines` write.
pub open spec fn rows_outcome(lines: Seq<Seq<char>>) -> Result<Seq<Seq<Int>>, QuestError>
    decreases lines.len(),
{
    if lines.len() == 0 {
        Ok(Seq::empty())
    } else {
        match rows_outcome(lines.drop_last()) {
            Ok(before) => match row_outcome(split_spec(lines.last(), ' ')) {
                Ok(row) => Ok(before.push(row)),
                Err(error) => Err(error),
            },
            Err(error) => Err(error),
        }
    }
}

/// No row is longer than the first.
pub open spec fn is_transposable(source: Seq<Seq<Int>>) -> bool {
    forall|r: int| 0 <= r < source.len() ==> (#[trigger] source[r]).len() <= source[0].len()
}

/// The columns of a table given by its rows: as many as the first row is
/// long, each with a place for every row, and a zero where a row ends
/// early.
pub open spec fn transposed(source: Seq<Seq<Int>>) -> Seq<Seq<Int>> {
    if source.len() == 0 {
        Seq::empty()
    } else {
        Seq::new(
            source[0].len(),
            |c: int|
                Seq::new(
                    source.len(),
                    |r: int|
                        if c < source[r].len() {
                            source[r][c]
                        } else {
                            0
                        },
                ),
        )
    }
}

/// The columns that a text writes row by row.
pub open spec fn parse_outcome(input: Seq<char>) -> Result<Seq<Seq<Int>>, QuestError> {
    match rows_outcome(trimmed_lines(input)) {
        Ok(source) => if is_transposable(source) {
            Ok(transposed(source))
        } else {
            Err(QuestError::MalformedInput)
        },
        Err(error) => Err(error),
    }
}

/// What is shouted after `times` rounds.
pub open spec fn movements_outcome(cols: Seq<Seq<Int>>, times: nat) -> Result<
    Seq<char>,
    QuestError,
> {
    match danced(cols, times) {
        Some(after) => match shout(after) {
            Some(text) => Ok(text),
            None => Err(QuestError::MalformedInput),
        },
        None => Err(QuestError::MalformedInput),
    }
}

proof fn lemma_row_error_persists(tokens: Seq<Seq<char>>, upto: int)
    requires
        0 <= upto <= tokens.len(),
        row_outcome(tokens.take(upto)) is Err,
    ensures
        row_outcome(tokens) == Err::<Seq<Int>, QuestError>(QuestError::MalformedInput),
    decreases tokens.len() - upto,
{
    if upto < tokens.len() {
        assert(tokens.take(upto + 1).drop_last() =~= tokens.take(upto));
        lemma_row_error_persists(tokens, upto + 1);
    } else {
        assert(tokens.take(upto) =~= tokens);
        lemma_row_error_is_malformed(tokens);
    }
}

proof fn lemma_row_error_is_malformed(tokens: Seq<Seq<char>>)
    ensures
        row_outcome(tokens) is Err ==> row_outcome(tokens) == Err::<Seq<Int>, QuestError>(
            QuestError::MalformedInput,
        ),
    decreases tokens.len(),
{
    if tokens.len() > 0 {
        lemma_row_error_is_malformed(tokens.drop_last());
    }
}

proof fn lemma_rows_error_is_malformed(lines: Seq<Seq<char>>)
    ensures
        rows_outcome(lines) is Err ==> rows_outcome(lines) == Err::<Seq<Seq<Int>>, QuestError>(
            QuestError::MalformedInput,
        ),
    decreases lines.len(),
{
    if lines.len() > 0 {
        lemma_rows_error_is_malformed(lines.drop_last());
        lemma_row_error_is_malformed(split_spec(lines.last(), ' '));
    }
}

proof fn lemma_rows_error_persists(lines: Seq<Seq<char>>, upto: int)
    requires
        0 <= upto <= lines.len(),
        rows_outcome(lines.take(upto)) is Err,
    ensures
        rows_outcome(lines) == Err::<Seq<Seq<Int>>, QuestError>(QuestError::MalformedInput),
    decreases lines.len() - upto,
{
    if upto < lines.len() {
        assert(lines.take(upto + 1).drop_last() =~= lines.take(upto));
        lemma_rows_error_persists(lines, upto + 1);
    } else {
        assert(lines.take(upto) =~= lines);
        lemma_rows_error_is_malformed(lines);
    }
}

/// Reads the numbers of one line.
fn parse_row(line: &[char]) -> (outcome: Result<Vec<Int>, QuestError>)
    ensures
        match outcome {
            Ok(row) => row_outcome(split_spec(line@, ' ')) == Ok::<Seq<Int>, QuestError>(row@),
            Err(error) => row_outcome(split_spec(line@, ' ')) == Err::<Seq<Int>, QuestError>(error),
        },
{
    let tokens = split(line, ' ');
    let ghost list = rows(tokens@);
    let mut row: Vec<Int> = Vec::new();
    let mut at: usize = 0;
    while at < tokens.len()
        invariant
            at <= tokens.len(),
            list == rows(tokens@),
            list == split_spec(line@, ' '),
            row_outcome(list.take(at as int)) == Ok::<Seq<Int>, QuestError>(row@),
        decreases tokens.len() - at,
    {
        proof {
            assert(list.take(at + 1).drop_last() =~= list.take(at as int));
            assert(list.take(at + 1).last() == tokens[at as int]@);
        }
        match parse_number(tokens[at].as_slice()) {
            Some(value) => {
                row.push(value);
            },
            None => {
                proof {
                    lemma_row_error_persists(list, at + 1);
                }
                return Err(QuestError::MalformedInput);
            },
        }
        at += 1;
    }
    proof {
        assert(list.take(at as int) =~= list);
    }
    Ok(row)
}

/// Whether no row of `source` is longer than the first.
fn transposable(source: &Vec<Vec<Int>>) -> (fits: bool)
    ensures
        fits == is_transposable(columns(source@)),
{
    let mut r: usize = 0;
    while r < source.len()
        invariant
            r <= source.len(),
            forall|i: int| 0 <= i < r ==> (#[trigger] columns(source@)[i]).len() <= columns(
                source@,
            )[0].len(),
        decreases source.len() - r,
    {
        proof {
            assert(columns(source@)[r as int] == source[r as int]@);
            assert(columns(source@)[0] == source[0]@);
        }
        if source[r].len() > source[0].len() {
            return false;
        }
        r += 1;
    }
    true
}

/// The columns of the table whose rows are `source`.
pub fn transpose(source: &Vec<Vec<Int>>) -> (result: Vec2<Int>)
    requires
        is_transposable(columns(source@)),
    ensures
        columns(result@) == transposed(columns(source@)),
{
    let ghost table = columns(source@);
    let mut result: Vec<Vec<Int>> = Vec::new();
    if source.len() == 0 {
        proof {
            assert(columns(result@) =~= transposed(table));
        }
        return result;
    }
    let cols = source[0].len();
    let mut c: usize = 0;
    proof {
        assert(table[0] == source[0]@);
    }
    while c < cols
        invariant
            c <= cols,
            source.len() > 0,
            cols == source[0].len(),
            table == columns(source@),
            result.len() == c,
            forall|i: int| 0 <= i < c ==> (#[trigger] result[i])@ == transposed(table)[i],
        decreases cols - c,
    {
        let mut column: Vec<Int> = Vec::new();
        let mut r: usize = 0;
        while r < source.len()
            invariant
                r <= source.len(),
                table == columns(source@),
                column.len() == r,
                forall|i: int|
                    0 <= i < r ==> #[trigger] column[i] == (if c < table[i].len() {
                        table[i][c as int]
                    } else {
                        0
                    }),
            decreases source.len() - r,
        {
            proof {
                assert(table[r as int] == source[r as int]@);
            }
            let value = if c < source[r].len() {
                source[r][c]
            } else {
                0
            };
            column.push(value);
            r += 1;
        }
        proof {
            assert(column@ =~= transposed(table)[c as int]);
        }
        result.push(column);
        c += 1;
    }
    proof {
        assert(columns(result@) =~= transposed(table));
    }
    result
}

/// The columns of dancers that `input` writes row by row.
pub fn parse(input: &str) -> (outcome: Result<Vec2<Int>, QuestError>)
    ensures
        match outcome {
            Ok(data) => parse_outcome(input@) == Ok::<Seq<Seq<Int>>, QuestError>(columns(data@)),
            Err(error) => parse_outcome(input@) == Err::<Seq<Seq<Int>>, QuestError>(error),
        },
{
    let chars = chars_of(input);
    let lines = lines_of(chars.as_slice());
    let ghost list = rows(lines@);
    let mut source: Vec<Vec<Int>> = Vec::new();
    let mut at: usize = 0;
    proof {
        assert(columns(source@) =~= Seq::<Seq<Int>>::empty());
    }
    while at < lines.len()
        invariant
            at <= lines.len(),
            list == rows(lines@),
            list == trimmed_lines(input@),
            rows_outcome(list.take(at as int)) == Ok::<Seq<Seq<Int>>, QuestError>(
                columns(source@),
            ),
        decreases lines.len() - at,
    {
        proof {
            assert(list.take(at + 1).drop_last() =~= list.take(at as int));
            assert(list.take(at + 1).last() == lines[at as int]@);
        }
        match parse_row(lines[at].as_slice()) {
            Ok(row) => {
                proof {
                    assert(columns(source@.push(row)) =~= columns(source@).push(row@));
                }
                source.push(row);
            },
            Err(error) => {
                proof {
                    lemma_row_error_is_malformed(split_spec(lines[at as int]@, ' '));
                    assert(rows_outcome(list.take(at + 1)) is Err);
                    lemma_rows_error_persists(list, at + 1);
                }
                return Err(error);
            },
        }
        at += 1;
    }
    proof {
        assert(list.take(at as int) =~= list);
    }
    if !transposable(&source) {
        return Err(QuestError::MalformedInput);
    }
    Ok(transpose(&source))
}

/// Dances round `step`: the first dancer of the column whose turn it is
/// joins the next column. Where the round cannot be danced nothing moves.
pub fn process_movement(data: &mut Vec2<Int>, step: usize) -> (outcome: Result<(), QuestError>)
    ensures
        match outcome {
            Ok(()) => moved(columns(old(data)@), step as nat) == Some(columns(final(data)@)),
            Err(error) => error == QuestError::MalformedInput && moved(
                columns(old(data)@),
                step as nat,
            ) is None && final(data)@ == old(data)@,
        },
{
    let ghost cols = columns(data@);
    if data.len() == 0 {
        return Err(QuestError::MalformedInput);
    }
    let col = step % data.len();
    let next_col = if col + 1 == data.len() {
        0
    } else {
        col + 1
    };
    proof {
        assert(cols[col as int] == data[col as int]@);
        assert(cols[next_col as int] == data[next_col as int]@);
        if col + 1 == data.len() {
            assert((col + 1) % (data.len() as int) == 0) by (nonlinear_arith)
                requires
                    col + 1 == data.len(),
                    data.len() > 0,
            ;
        } else {
            assert((col + 1) % (data.len() as int) == col + 1) by (nonlinear_arith)
                requires
                    0 <= col + 1 < data.len(),
            ;
        }
    }
    if data[col].len() == 0 || data[col][0] == 0 {
        return Err(QuestError::MalformedInput);
    }
    let next_len = if next_col == col {
        data[col].len() - 1
    } else {
        data[next_col].len()
    };
    if next_len == 0 {
        return Err(QuestError::MalformedInput);
    }
    let val = data[col].remove(0);
    proof {
        assert(data[col as int]@ =~= cols[col as int].drop_first());
        assert(columns(data@) =~= cols.update(col as int, cols[col as int].drop_first()));
    }
    let ghost lifted = columns(data@);
    let round = 2 * (next_len as u128);
    let mut pos = ((val - 1) as u128) % round;
    if pos > next_len as u128 {
        pos = round - pos;
    }
    data[next_col].insert(pos as usize, val);
    proof {
        assert(columns(data@) =~= lifted.update(
            next_col as int,
            lifted[next_col as int].insert(pos as int, val),
        ));
    }
    Ok(())
}

/// What the dancers shout: the numbers of the first dancers of all
/// columns, written one after the other.
pub fn calculate_output(data: &Vec<Vec<Int>>) -> (outcome: Result<String, QuestError>)
    ensures
        match outcome {
            Ok(text) => shout(columns(data@)) == Some(text@),
            Err(error) => error == QuestError::MalformedInput && shout(columns(data@)) is None,
        },
{
    let ghost cols = columns(data@);
    let mut text = String::new();
    let mut at: usize = 0;
    while at < data.len()
        invariant
            at <= data.len(),
            cols == columns(data@),
            shout(cols.take(at as int)) == Some(text@),
        decreases data.len() - at,
    {
        proof {
            assert(cols.take(at + 1).drop_last() =~= cols.take(at as int));
            assert(cols.take(at + 1).last() == data[at as int]@);
        }
        if data[at].len() == 0 {
            proof {
                lemma_shout_stays_silent(cols, at + 1);
            }
            return Err(QuestError::MalformedInput);
        }
        push_decimal(&mut text, data[at][0]);
        at += 1;
    }
    proof {
        assert(cols.take(at as int) =~= cols);
    }
    Ok(text)
}

proof fn lemma_shout_stays_silent(cols: Seq<Seq<Int>>, upto: int)
    requires
        0 <= upto <= cols.len(),
        shout(cols.take(upto)) is None,
    ensures
        shout(cols) is None,
    decreases cols.len() - upto,
{
    if upto < cols.len() {
        assert(cols.take(upto + 1).drop_last() =~= cols.take(upto));
        lemma_shout_stays_silent(cols, upto + 1);
    } else {
        assert(cols.take(upto) =~= cols);
    }
}

proof fn lemma_dance_stays_broken(cols: Seq<Seq<Int>>, broken: nat, later: nat)
    requires
        broken <= later,
        danced(cols, broken) is None,
    ensures
        danced(cols, later) is None,
    decreases later - broken,
{
    if broken < later {
        lemma_dance_stays_broken(cols, broken, (later - 1) as nat);
    }
}

/// Dances the first `times` rounds and answers what is shouted then.
pub fn make_movements(data: &mut Vec2<Int>, times: usize) -> (outcome: Result<String, QuestError>)
    ensures
        text_of(outcome) == movements_outcome(columns(old(data)@), times as nat),
        outcome is Ok ==> danced(columns(old(data)@), times as nat) == Some(columns(final(data)@)),
{
    let ghost start = columns(data@);
    let mut step: usize = 0;
    while step < times
        invariant
            step <= times,
            start == columns(old(data)@),
            danced(start, step as nat) == Some(columns(data@)),
        decreases times - step,
    {
        match process_movement(data, step) {
            Ok(()) => {},
            Err(error) => {
                proof {
                    assert(danced(start, (step + 1) as nat) is None);
                    lemma_dance_stays_broken(start, (step + 1) as nat, times as nat);
                }
                return Err(error);
            },
        }
        step += 1;
    }
    calculate_output(data)
}

// ---------------------------------------------------------------------
// Listening to the dance
// ---------------------------------------------------------------------
/// How often a shout has to be heard to end the second dance.
pub const REPEATS: usize = 2024;

/// `text` is made of digits only.
pub open spec fn all_digits(text: Seq<char>) -> bool {
    forall|i: int| 0 <= i < text.len() ==> is_digit(#[trigger] text[i])
}

/// The key under which a shout is remembered: its length and its number.
pub open spec fn shout_key(text: Seq<char>) -> nat {
    text.len() * 0x1_0000_0000_0000_0000 + number_of(text)
}

/// What is heard at the end of a round danced from `cols`: the shout and
/// its key. Nothing is heard where the dance breaks, and a shout whose
/// number is beyond 64 bits cannot be remembered.
pub open spec fn heard(cols: Seq<Seq<Int>>, step: nat) -> Result<(Seq<char>, nat), QuestError> {
    match moved(cols, step) {
        Some(after) => match shout(after) {
            Some(text) => if number_of(text) > u64::MAX {
                Err(QuestError::ResourceExhaustion)
            } else {
                Ok((text, shout_key(text)))
            },
            None => Err(QuestError::MalformedInput),
        },
        None => Err(QuestError::MalformedInput),
    }
}

/// What is heard at the end of round `step` of the dance that starts from
/// `cols`.
#[verifier::opaque]
pub open spec fn heard_at(cols: Seq<Seq<Int>>, step: nat) -> Result<(Seq<char>, nat), QuestError> {
    match danced(cols, step) {
        Some(before) => heard(before, step),
        None => Err(QuestError::MalformedInput),
    }
}

/// The shout of round `step`.
pub open spec fn text_at(cols: Seq<Seq<Int>>, step: nat) -> Seq<char> {
    heard_at(cols, step)->Ok_0.0
}

/// How often `text` is heard in the first `upto` rounds.
pub open spec fn times_heard(cols: Seq<Seq<Int>>, text: Seq<char>, upto: nat) -> nat
    decreases upto,
{
    if upto == 0 {
        0
    } else {
        times_heard(cols, text, (upto - 1) as nat) + if text_at(cols, (upto - 1) as nat) == text {
            1nat
        } else {
            0nat
        }
    }
}

/// The second dance ends with round `step`: the dance breaks there, or
/// the shout of the round is heard for the `REPEATS`th time.
pub open spec fn ends_second(cols: Seq<Seq<Int>>, step: nat) -> bool {
    heard_at(cols, step) is Err || times_heard(cols, text_at(cols, step), step + 1) == REPEATS
}

/// The round with which the second dance ends.
pub open spec fn second_end(cols: Seq<Seq<Int>>) -> nat {
    choose|step: nat|
        ends_second(cols, step) && forall|before: nat|
            before < step ==> !ends_second(cols, before)
}

/// The answer of the second dance: the number shouted at its end times
/// the number of rounds danced. There is none if the dance goes on for
/// more rounds than can be counted, or if the answer is beyond 64 bits.
pub open spec fn second_outcome(cols: Seq<Seq<Int>>) -> Result<Seq<char>, QuestError> {
    if exists|step: nat| step < usize::MAX && #[trigger] ends_second(cols, step) {
        let end = second_end(cols);
        match heard_at(cols, end) {
            Ok((text, _)) => if number_of(text) * (end + 1) > u64::MAX {
                Err(QuestError::ResourceExhaustion)
            } else {
                Ok(decimal(number_of(text) * (end + 1)))
            },
            Err(error) => Err(error),
        }
    } else {
        Err(QuestError::ResourceExhaustion)
    }
}

/// The shout of round `step` has not been heard before.
pub open spec fn is_new(cols: Seq<Seq<Int>>, step: nat) -> bool {
    forall|before: nat| before < step ==> text_at(cols, before) != text_at(cols, step)
}

/// The number of different shouts in the first `upto` rounds.
pub open spec fn distinct_upto(cols: Seq<Seq<Int>>, upto: nat) -> nat
    decreases upto,
{
    if upto == 0 {
        0
    } else {
        distinct_upto(cols, (upto - 1) as nat) + if is_new(cols, (upto - 1) as nat) {
            1nat
        } else {
            0nat
        }
    }
}

/// The last of the first `upto` rounds with a new shout; zero where there
/// is none.
pub open spec fn last_new(cols: Seq<Seq<Int>>, upto: nat) -> nat
    decreases upto,
{
    if upto == 0 {
        0
    } else if is_new(cols, (upto - 1) as nat) {
        (upto - 1) as nat
    } else {
        last_new(cols, (upto - 1) as nat)
    }
}

/// `text` comes before `other` in the order of the dictionary.
pub open spec fn lex_less(text: Seq<char>, other: Seq<char>) -> bool
    decreases text.len(),
{
    if other.len() == 0 {
        false
    } else if text.len() == 0 {
        true
    } else if text[0] != other[0] {
        (text[0] as u32) < (other[0] as u32)
    } else {
        lex_less(text.drop_first(), other.drop_first())
    }
}

/// The greatest of the shouts of the first `upto` rounds, in the order of
/// the dictionary; the empty text where there is none.
pub open spec fn best_upto(cols: Seq<Seq<Int>>, upto: nat) -> Seq<char>
    decreases upto,
{
    if upto == 0 {
        Seq::empty()
    } else {
        let before = best_upto(cols, (upto - 1) as nat);
        let text = text_at(cols, (upto - 1) as nat);
        if lex_less(before, text) {
            text
        } else {
            before
        }
    }
}

/// The third dance ends with round `step`: the dance breaks there, or
/// the round repeats a shout and more rounds have passed since the last
/// new shout than there are different shouts.
pub open spec fn ends_third(cols: Seq<Seq<Int>>, step: nat) -> bool {
    ||| heard_at(cols, step) is Err
    ||| (!is_new(cols, step) && step - last_new(cols, step) > distinct_upto(cols, step))
}

/// The round with which the third dance ends.
pub open spec fn third_end(cols: Seq<Seq<Int>>) -> nat {
    choose|step: nat|
        ends_third(cols, step) && forall|before: nat| before < step ==> !ends_third(cols, before)
}

/// The answer of the third dance: the greatest shout heard.
pub open spec fn third_outcome(cols: Seq<Seq<Int>>) -> Result<Seq<char>, QuestError> {
    if exists|step: nat| step < usize::MAX && #[trigger] ends_third(cols, step) {
        let end = third_end(cols);
        match heard_at(cols, end) {
            Ok(_) => Ok(best_upto(cols, end)),
            Err(error) => Err(error),
        }
    } else {
        Err(QuestError::ResourceExhaustion)
    }
}

proof fn lemma_digits_are_canonical(text: Seq<char>, other: Seq<char>)
    requires
        all_digits(text),
        all_digits(other),
        text.len() == other.len(),
        number_of(text) == number_of(other),
    ensures
        text == other,
    decreases text.len(),
{
    if text.len() > 0 {
        assert(is_digit(text[text.len() - 1]) && is_digit(other[other.len() - 1]));
        assert(digit_value(text.last()) < 10 && digit_value(other.last()) < 10);
        assert(all_digits(text.drop_last()) && all_digits(other.drop_last())) by {
            assert forall|i: int| 0 <= i < text.len() - 1 implies is_digit(
                #[trigger] text.drop_last()[i],
            ) && is_digit(other.drop_last()[i]) by {
                assert(is_digit(text[i]) && is_digit(other[i]));
            }
        }
        lemma_digits_are_canonical(text.drop_last(), other.drop_last());
        assert(digit_value(text.last()) == digit_value(other.last()));
        vstd::utf8::char_u32_cast(text.last(), text.last() as u32);
        vstd::utf8::char_u32_cast(other.last(), other.last() as u32);
        assert(text.last() == other.last());
        assert(text =~= text.drop_last().push(text.last()));
        assert(other =~= other.drop_last().push(other.last()));
    } else {
        assert(text =~= other);
    }
}

/// Shouts that fit 64 bits and share a key are the same shout.
proof fn lemma_keys_are_canonical(text: Seq<char>, other: Seq<char>)
    requires
        all_digits(text),
        all_digits(other),
        number_of(text) <= u64::MAX,
        number_of(other) <= u64::MAX,
        shout_key(text) == shout_key(other),
    ensures
        text == other,
{
    assert(text.len() == other.len()) by (nonlinear_arith)
        requires
            text.len() * 0x1_0000_0000_0000_0000 + number_of(text) == other.len()
                * 0x1_0000_0000_0000_0000 + number_of(other),
            number_of(text) <= 0xffff_ffff_ffff_ffff,
            number_of(other) <= 0xffff_ffff_ffff_ffff,
    ;
    lemma_digits_are_canonical(text, other);
}

proof fn lemma_shout_is_digits(cols: Seq<Seq<Int>>)
    ensures
        shout(cols) is Some ==> all_digits(shout(cols)->Some_0),
        shout(cols) is Some && cols.len() > 0 ==> shout(cols)->Some_0.len() > 0,
    decreases cols.len(),
{
    if cols.len() > 0 && shout(cols) is Some {
        lemma_shout_is_digits(cols.drop_last());
        decimal_reads_back(cols.last()[0] as nat);
    }
}

/// Whatever is heard is made of digits, at least one of them.
proof fn lemma_heard_is_digits(cols: Seq<Seq<Int>>, step: nat)
    ensures
        heard_at(cols, step) is Ok ==> {
            &&& all_digits(text_at(cols, step))
            &&& text_at(cols, step).len() > 0
            &&& number_of(text_at(cols, step)) <= u64::MAX
            &&& heard_at(cols, step)->Ok_0.1 == shout_key(text_at(cols, step))
        },
{
    reveal(heard_at);
    if heard_at(cols, step) is Ok {
        let before = danced(cols, step)->Some_0;
        let after = moved(before, step)->Some_0;
        lemma_shout_is_digits(after);
    }
}

/// Rounds that share a key share a shout.
proof fn lemma_same_key_same_text(cols: Seq<Seq<Int>>, step: nat, other: nat)
    requires
        heard_at(cols, step) is Ok,
        heard_at(cols, other) is Ok,
        heard_at(cols, step)->Ok_0.1 == heard_at(cols, other)->Ok_0.1,
    ensures
        text_at(cols, step) == text_at(cols, other),
{
    lemma_heard_is_digits(cols, step);
    lemma_heard_is_digits(cols, other);
    lemma_keys_are_canonical(text_at(cols, step), text_at(cols, other));
}

proof fn lemma_times_heard(cols: Seq<Seq<Int>>, text: Seq<char>, upto: nat)
    ensures
        times_heard(cols, text, upto) <= upto,
        times_heard(cols, text, upto) > 0 ==> exists|step: nat|
            step < upto && #[trigger] text_at(cols, step) == text,
    decreases upto,
{
    if upto > 0 {
        lemma_times_heard(cols, text, (upto - 1) as nat);
        if text_at(cols, (upto - 1) as nat) == text {
            let last = (upto - 1) as nat;
            assert(last < upto && text_at(cols, last) == text);
        } else if times_heard(cols, text, upto) > 0 {
            let step = choose|step: nat| step < upto - 1 && #[trigger] text_at(cols, step) == text;
            assert(step < upto && text_at(cols, step) == text);
        }
    }
}

/// Dances one round and listens.
fn hear(data: &mut Vec2<Int>, step: usize) -> (outcome: Result<(Vec<char>, u128), QuestError>)
    ensures
        match outcome {
            Ok((text, key)) => heard(columns(old(data)@), step as nat) == Ok::<
                (Seq<char>, nat),
                QuestError,
            >((text@, key as nat)) && moved(columns(old(data)@), step as nat) == Some(
                columns(final(data)@),
            ),
            Err(error) => heard(columns(old(data)@), step as nat) == Err::<
                (Seq<char>, nat),
                QuestError,
            >(error),
        },
{
    process_movement(data, step)?;
    let output = calculate_output(data)?;
    let text = chars_of(output.as_str());
    proof {
        lemma_shout_is_digits(columns(data@));
        assert(columns(data@).len() > 0);
        assert(is_digit(text@[0]));
        assert(unsigned_digits(text@) == text@);
        assert(is_number(text@));
    }
    match parse_number(text.as_slice()) {
        Some(number) => {
            let key = (text.len() as u128) * 0x1_0000_0000_0000_0000 + number as u128;
            Ok((text, key))
        },
        None => Err(QuestError::ResourceExhaustion),
    }
}

/// `counts` remembers how often each shout of the first `step` rounds has
/// been heard, under its key, and nothing else.
#[verifier::opaque]
spec fn tallies(counts: Map<u128, usize>, cols: Seq<Seq<Int>>, step: nat) -> bool {
    &&& forall|round: nat|
        round < step ==> {
            &&& counts.contains_key(#[trigger] heard_at(cols, round)->Ok_0.1 as u128)
            &&& counts[heard_at(cols, round)->Ok_0.1 as u128] as nat == times_heard(
                cols,
                text_at(cols, round),
                step,
            )
        }
    &&& forall|key: u128| #[trigger]
        counts.contains_key(key) ==> exists|round: nat|
            round < step && #[trigger] heard_at(cols, round)->Ok_0.1 == key
}

/// All of the first `upto` rounds have been heard, and their keys fit the
/// machine's integers.
#[verifier::opaque]
spec fn all_heard(cols: Seq<Seq<Int>>, upto: nat) -> bool {
    forall|round: nat|
        round < upto ==> (#[trigger] heard_at(cols, round)) is Ok && heard_at(cols, round)->Ok_0.1
            <= u128::MAX
}

proof fn lemma_tally_round(
    counts: Map<u128, usize>,
    after: Map<u128, usize>,
    cols: Seq<Seq<Int>>,
    step: nat,
    count: usize,
)
    requires
        tallies(counts, cols, step),
        all_heard(cols, step + 1),
        counts.contains_key(heard_at(cols, step)->Ok_0.1 as u128) ==> count == counts[heard_at(
            cols,
            step,
        )->Ok_0.1 as u128] + 1,
        !counts.contains_key(heard_at(cols, step)->Ok_0.1 as u128) ==> count == 1,
        after == counts.insert(heard_at(cols, step)->Ok_0.1 as u128, count),
    ensures
        tallies(after, cols, step + 1),
        count as nat == times_heard(cols, text_at(cols, step), step + 1),
{
    reveal(tallies);
    reveal(all_heard);
    let key = heard_at(cols, step)->Ok_0.1 as u128;
    let text = text_at(cols, step);
    lemma_times_heard(cols, text, step);
    assert(heard_at(cols, step) is Ok);
    assert(count as nat == times_heard(cols, text, step + 1)) by {
        if counts.contains_key(key) {
            let round = choose|round: nat|
                round < step && #[trigger] heard_at(cols, round)->Ok_0.1 == key;
            assert(heard_at(cols, round) is Ok);
            lemma_same_key_same_text(cols, step, round);
        } else {
            if times_heard(cols, text, step) > 0 {
                let round = choose|round: nat| round < step && #[trigger] text_at(cols, round) == text;
                assert(heard_at(cols, round) is Ok);
                lemma_heard_is_digits(cols, round);
                lemma_heard_is_digits(cols, step);
                assert(counts.contains_key(heard_at(cols, round)->Ok_0.1 as u128));
            }
        }
    }
    assert forall|round: nat| round < step + 1 implies {
        &&& after.contains_key(#[trigger] heard_at(cols, round)->Ok_0.1 as u128)
        &&& after[heard_at(cols, round)->Ok_0.1 as u128] as nat == times_heard(
            cols,
            text_at(cols, round),
            step + 1,
        )
    } by {
        assert(heard_at(cols, round) is Ok);
        lemma_heard_is_digits(cols, round);
        lemma_heard_is_digits(cols, step);
        if round < step {
            if heard_at(cols, round)->Ok_0.1 == heard_at(cols, step)->Ok_0.1 {
                lemma_same_key_same_text(cols, step, round);
            } else {
                assert(text_at(cols, round) != text);
            }
        }
    }
    assert forall|other: u128| #[trigger] after.contains_key(other) implies exists|round: nat|
        round < step + 1 && #[trigger] heard_at(cols, round)->Ok_0.1 == other by {
        if other == key {
            assert(step < step + 1 && heard_at(cols, step)->Ok_0.1 == other);
        } else {
            let round = choose|round: nat|
                round < step && #[trigger] heard_at(cols, round)->Ok_0.1 == other;
            assert(round < step + 1 && heard_at(cols, round)->Ok_0.1 == other);
        }
    }
}

proof fn lemma_second_end_found(cols: Seq<Seq<Int>>, step: nat)
    requires
        ends_second(cols, step),
        forall|before: nat| before < step ==> !ends_second(cols, before),
    ensures
        second_end(cols) == step,
{
    let end = second_end(cols);
    if end < step {
        assert(!ends_second(cols, end));
    }
}

proof fn lemma_third_end_found(cols: Seq<Seq<Int>>, step: nat)
    requires
        ends_third(cols, step),
        forall|before: nat| before < step ==> !ends_third(cols, before),
    ensures
        third_end(cols) == step,
{
    let end = third_end(cols);
    if end < step {
        assert(!ends_third(cols, end));
    }
}

/// Counts the shout of round `step` and answers how often it has been
/// heard by now.
fn tally(
    counts: &mut HashMap<u128, usize>,
    key: u128,
    step: usize,
    Ghost(cols): Ghost<Seq<Seq<Int>>>,
) -> (count: usize)
    requires
        step < usize::MAX,
        tallies(old(counts)@, cols, step as nat),
        all_heard(cols, (step + 1) as nat),
        heard_at(cols, step as nat)->Ok_0.1 == key,
    ensures
        tallies(final(counts)@, cols, (step + 1) as nat),
        count as nat == times_heard(cols, text_at(cols, step as nat), (step + 1) as nat),
{
    let ghost before = counts@;
    let ghost round = step as nat;
    proof {
        reveal(tallies);
        reveal(all_heard);
        lemma_times_heard(cols, text_at(cols, round), round);
        assert(heard_at(cols, round) is Ok);
    }
    let count = match counts.insert(key, 1) {
        Some(earlier) => {
            proof {
                let r = choose|r: nat| r < round && #[trigger] heard_at(cols, r)->Ok_0.1 == key;
                assert(heard_at(cols, r) is Ok);
                lemma_same_key_same_text(cols, round, r);
                assert(before[heard_at(cols, r)->Ok_0.1 as u128] as nat == times_heard(
                    cols,
                    text_at(cols, r),
                    round,
                ));
            }
            counts.insert(key, earlier + 1);
            earlier + 1
        },
        None => 1,
    };
    proof {
        assert(counts@ =~= before.insert(key, count));
        lemma_tally_round(before, counts@, cols, round, count);
    }
    count
}

/// None of the first `upto` rounds ends the second dance.
#[verifier::opaque]
spec fn second_goes_on(cols: Seq<Seq<Int>>, upto: nat) -> bool {
    forall|round: nat| round < upto ==> !ends_second(cols, round)
}

proof fn lemma_listening_starts(cols: Seq<Seq<Int>>)
    ensures
        second_goes_on(cols, 0),
        third_goes_on(cols, 0),
        all_heard(cols, 0),
        tallies(Map::empty(), cols, 0),
        witnessed(Set::empty(), cols, 0),
{
    reveal(second_goes_on);
    reveal(third_goes_on);
    reveal(all_heard);
    reveal(tallies);
    reveal(witnessed);
}

/// What one more round that is heard adds to what is known of the dance.
proof fn lemma_round_heard(
    cols: Seq<Seq<Int>>,
    now: Seq<Seq<Int>>,
    step: nat,
    text: Seq<char>,
    key: u128,
)
    requires
        danced(cols, step) == Some(now),
        heard(now, step) == Ok::<(Seq<char>, nat), QuestError>((text, key as nat)),
        all_heard(cols, step),
    ensures
        heard_at(cols, step) == Ok::<(Seq<char>, nat), QuestError>((text, key as nat)),
        text_at(cols, step) == text,
        danced(cols, step + 1) == moved(now, step),
        all_heard(cols, step + 1),
        all_digits(text),
        text.len() > 0,
        number_of(text) <= u64::MAX,
{
    reveal(all_heard);
    reveal(heard_at);
    lemma_heard_is_digits(cols, step);
}

/// A round that breaks is heard as broken.
proof fn lemma_round_broken(cols: Seq<Seq<Int>>, now: Seq<Seq<Int>>, step: nat, error: QuestError)
    requires
        danced(cols, step) == Some(now),
        heard(now, step) == Err::<(Seq<char>, nat), QuestError>(error),
    ensures
        heard_at(cols, step) == Err::<(Seq<char>, nat), QuestError>(error),
{
    reveal(heard_at);
}

proof fn lemma_second_breaks(cols: Seq<Seq<Int>>, step: nat, error: QuestError)
    requires
        second_goes_on(cols, step),
        step < usize::MAX,
        heard_at(cols, step) == Err::<(Seq<char>, nat), QuestError>(error),
    ensures
        second_outcome(cols) == Err::<Seq<char>, QuestError>(error),
{
    reveal(second_goes_on);
    lemma_second_end_found(cols, step);
    assert(step < usize::MAX && ends_second(cols, step));
}

proof fn lemma_second_finale(cols: Seq<Seq<Int>>, step: nat, text: Seq<char>, count: usize)
    requires
        second_goes_on(cols, step),
        step < usize::MAX,
        heard_at(cols, step) is Ok,
        text_at(cols, step) == text,
        count as nat == times_heard(cols, text, step + 1),
    ensures
        count == REPEATS ==> second_outcome(cols) == (if number_of(text) * (step + 1) > u64::MAX {
            Err::<Seq<char>, QuestError>(QuestError::ResourceExhaustion)
        } else {
            Ok::<Seq<char>, QuestError>(decimal(number_of(text) * ((step + 1) as nat)))
        }),
        count != REPEATS ==> second_goes_on(cols, step + 1),
{
    reveal(second_goes_on);
    if count == REPEATS {
        lemma_second_end_found(cols, step);
        assert(step < usize::MAX && ends_second(cols, step));
        assert(heard_at(cols, step) == Ok::<(Seq<char>, nat), QuestError>(
            (text, heard_at(cols, step)->Ok_0.1),
        ));
    }
}

proof fn lemma_second_never_ends(cols: Seq<Seq<Int>>)
    requires
        second_goes_on(cols, usize::MAX as nat),
    ensures
        second_outcome(cols) == Err::<Seq<char>, QuestError>(QuestError::ResourceExhaustion),
{
    reveal(second_goes_on);
}

/// The number of the shout `text` times the rounds danced, in decimal.
fn finale_answer(text: &[char], step: usize) -> (outcome: Result<String, QuestError>)
    requires
        all_digits(text@),
        text.len() > 0,
        number_of(text@) <= u64::MAX,
        step < usize::MAX,
    ensures
        text_of(outcome) == (if number_of(text@) * (step + 1) > u64::MAX {
            Err::<Seq<char>, QuestError>(QuestError::ResourceExhaustion)
        } else {
            Ok::<Seq<char>, QuestError>(decimal(number_of(text@) * ((step + 1) as nat)))
        }),
{
    proof {
        assert(is_digit(text@[0]));
        assert(unsigned_digits(text@) == text@);
        assert(is_number(text@));
    }
    let number = match parse_number(text) {
        Some(number) => number,
        None => {
            return Err(QuestError::ResourceExhaustion);
        },
    };
    match number.checked_mul(step as u64 + 1) {
        Some(product) => Ok(decimal_text(product)),
        None => Err(QuestError::ResourceExhaustion),
    }
}

/// Dances until a shout has been heard `REPEATS` times and answers the
/// number of that shout times the number of rounds danced.
pub fn dance_to_finale(data: &mut Vec2<Int>) -> (outcome: Result<String, QuestError>)
    ensures
        text_of(outcome) == second_outcome(columns(old(data)@)),
{
    let ghost start = columns(data@);
    let mut counts: HashMap<u128, usize> = HashMap::new();
    let mut step: usize = 0;
    proof {
        lemma_listening_starts(start);
        assert(counts@ =~= Map::empty());
    }
    while step < usize::MAX
        invariant
            start == columns(old(data)@),
            danced(start, step as nat) == Some(columns(data@)),
            second_goes_on(start, step as nat),
            all_heard(start, step as nat),
            tallies(counts@, start, step as nat),
        decreases usize::MAX - step,
    {
        let ghost round = step as nat;
        let ghost now = columns(data@);
        match hear(data, step) {
            Err(error) => {
                proof {
                    lemma_round_broken(start, now, round, error);
                    lemma_second_breaks(start, round, error);
                }
                return Err(error);
            },
            Ok((text, key)) => {
                proof {
                    lemma_round_heard(start, now, round, text@, key);
                }
                let count = tally(&mut counts, key, step, Ghost(start));
                proof {
                    lemma_second_finale(start, round, text@, count);
                }
                if count == REPEATS {
                    return finale_answer(text.as_slice(), step);
                }
            },
        }
        step += 1;
    }
    proof {
        lemma_second_never_ends(start);
    }
    Err(QuestError::ResourceExhaustion)
}

// ---------------------------------------------------------------------
// The third dance
// ---------------------------------------------------------------------
/// None of the first `upto` rounds ends the third dance.
#[verifier::opaque]
spec fn third_goes_on(cols: Seq<Seq<Int>>, upto: nat) -> bool {
    forall|round: nat| round < upto ==> !ends_third(cols, round)
}

/// `seen` holds the keys of the shouts of the first `step` rounds, and
/// nothing else.
#[verifier::opaque]
spec fn witnessed(seen: Set<u128>, cols: Seq<Seq<Int>>, step: nat) -> bool {
    &&& forall|round: nat|
        round < step ==> seen.contains(#[trigger] heard_at(cols, round)->Ok_0.1 as u128)
    &&& forall|key: u128| #[trigger]
        seen.contains(key) ==> exists|round: nat|
            round < step && #[trigger] heard_at(cols, round)->Ok_0.1 == key
}

/// What a round adds to the keys seen: its shout is new exactly if its key
/// was not there.
proof fn lemma_witness_round(seen: Set<u128>, cols: Seq<Seq<Int>>, step: nat, key: u128)
    requires
        witnessed(seen, cols, step),
        all_heard(cols, step + 1),
        heard_at(cols, step)->Ok_0.1 == key,
    ensures
        witnessed(seen.insert(key), cols, step + 1),
        is_new(cols, step) <==> !seen.contains(key),
{
    reveal(witnessed);
    reveal(all_heard);
    let after = seen.insert(key);
    assert(heard_at(cols, step) is Ok);
    if seen.contains(key) {
        let round = choose|round: nat|
            round < step && #[trigger] heard_at(cols, round)->Ok_0.1 == key;
        assert(heard_at(cols, round) is Ok);
        lemma_same_key_same_text(cols, step, round);
        assert(text_at(cols, round) == text_at(cols, step));
    } else {
        assert forall|before: nat| before < step implies text_at(cols, before) != text_at(
            cols,
            step,
        ) by {
            assert(heard_at(cols, before) is Ok);
            lemma_heard_is_digits(cols, before);
            lemma_heard_is_digits(cols, step);
            assert(seen.contains(heard_at(cols, before)->Ok_0.1 as u128));
        }
    }
    assert forall|round: nat| round < step + 1 implies after.contains(
        #[trigger] heard_at(cols, round)->Ok_0.1 as u128,
    ) by {
        assert(heard_at(cols, round) is Ok);
    }
    assert forall|other: u128| #[trigger] after.contains(other) implies exists|round: nat|
        round < step + 1 && #[trigger] heard_at(cols, round)->Ok_0.1 == other by {
        if other == key {
            assert(step < step + 1 && heard_at(cols, step)->Ok_0.1 == other);
        } else {
            let round = choose|round: nat|
                round < step && #[trigger] heard_at(cols, round)->Ok_0.1 == other;
            assert(round < step + 1 && heard_at(cols, round)->Ok_0.1 == other);
        }
    }
}

proof fn lemma_third_breaks(cols: Seq<Seq<Int>>, step: nat, error: QuestError)
    requires
        third_goes_on(cols, step),
        step < usize::MAX,
        heard_at(cols, step) == Err::<(Seq<char>, nat), QuestError>(error),
    ensures
        third_outcome(cols) == Err::<Seq<char>, QuestError>(error),
{
    reveal(third_goes_on);
    lemma_third_end_found(cols, step);
    assert(step < usize::MAX && ends_third(cols, step));
}

/// What a round that is heard means for the third dance.
proof fn lemma_third_round(cols: Seq<Seq<Int>>, step: nat, text: Seq<char>)
    requires
        third_goes_on(cols, step),
        step < usize::MAX,
        heard_at(cols, step) is Ok,
        text_at(cols, step) == text,
    ensures
        distinct_upto(cols, step) <= step,
        last_new(cols, step) <= step,
        distinct_upto(cols, step + 1) == distinct_upto(cols, step) + if is_new(cols, step) {
            1nat
        } else {
            0nat
        },
        last_new(cols, step + 1) == if is_new(cols, step) {
            step
        } else {
            last_new(cols, step)
        },
        best_upto(cols, step + 1) == if lex_less(best_upto(cols, step), text) {
            text
        } else {
            best_upto(cols, step)
        },
        ends_third(cols, step) <==> !is_new(cols, step) && step - last_new(cols, step)
            > distinct_upto(cols, step),
        ends_third(cols, step) ==> third_outcome(cols) == Ok::<Seq<char>, QuestError>(
            best_upto(cols, step),
        ),
        !ends_third(cols, step) ==> third_goes_on(cols, step + 1),
{
    reveal(third_goes_on);
    lemma_distinct_is_bounded(cols, step);
    if ends_third(cols, step) {
        lemma_third_end_found(cols, step);
        assert(step < usize::MAX && ends_third(cols, step));
    }
}

proof fn lemma_third_never_ends(cols: Seq<Seq<Int>>)
    requires
        third_goes_on(cols, usize::MAX as nat),
    ensures
        third_outcome(cols) == Err::<Seq<char>, QuestError>(QuestError::ResourceExhaustion),
{
    reveal(third_goes_on);
}

proof fn lemma_distinct_is_bounded(cols: Seq<Seq<Int>>, upto: nat)
    ensures
        distinct_upto(cols, upto) <= upto,
        last_new(cols, upto) <= upto,
    decreases upto,
{
    if upto > 0 {
        lemma_distinct_is_bounded(cols, (upto - 1) as nat);
    }
}

/// Whether `text` comes before `other` in the order of the dictionary.
pub fn comes_first(text: &[char], other: &[char]) -> (less: bool)
    ensures
        less == lex_less(text@, other@),
{
    let mut at: usize = 0;
    proof {
        assert(text@.skip(0) =~= text@);
        assert(other@.skip(0) =~= other@);
    }
    while at < text.len() && at < other.len()
        invariant
            at <= text.len(),
            at <= other.len(),
            lex_less(text@, other@) == lex_less(text@.skip(at as int), other@.skip(at as int)),
        decreases text.len() - at,
    {
        proof {
            assert(text@.skip(at as int)[0] == text@[at as int]);
            assert(other@.skip(at as int)[0] == other@[at as int]);
            assert(text@.skip(at as int).drop_first() =~= text@.skip(at + 1));
            assert(other@.skip(at as int).drop_first() =~= other@.skip(at + 1));
        }
        if text[at] != other[at] {
            return (text[at] as u32) < (other[at] as u32);
        }
        at += 1;
    }
    at < other.len()
}

/// Dances until the shouts have repeated for long enough and answers the
/// greatest shout heard.
pub fn dance_to_exhaustion(data: &mut Vec2<Int>) -> (outcome: Result<String, QuestError>)
    ensures
        text_of(outcome) == third_outcome(columns(old(data)@)),
{
    let ghost start = columns(data@);
    let mut seen: HashSet<u128> = HashSet::new();
    let mut distinct: usize = 0;
    let mut result: Vec<char> = Vec::new();
    let mut last_add: usize = 0;
    let mut step: usize = 0;
    proof {
        lemma_listening_starts(start);
        assert(seen@ =~= Set::empty());
    }
    while step < usize::MAX
        invariant
            start == columns(old(data)@),
            danced(start, step as nat) == Some(columns(data@)),
            third_goes_on(start, step as nat),
            all_heard(start, step as nat),
            witnessed(seen@, start, step as nat),
            distinct == distinct_upto(start, step as nat),
            last_add == last_new(start, step as nat),
            result@ == best_upto(start, step as nat),
        decreases usize::MAX - step,
    {
        let ghost round = step as nat;
        let ghost now = columns(data@);
        match hear(data, step) {
            Err(error) => {
                proof {
                    lemma_round_broken(start, now, round, error);
                    lemma_third_breaks(start, round, error);
                }
                return Err(error);
            },
            Ok((text, key)) => {
                proof {
                    lemma_round_heard(start, now, round, text@, key);
                    lemma_witness_round(seen@, start, round, key);
                    lemma_third_round(start, round, text@);
                }
                if seen.insert(key) {
                    distinct += 1;
                    last_add = step;
                } else if step - last_add > distinct {
                    return Ok(string_of(result.as_slice()));
                }
                if comes_first(result.as_slice(), text.as_slice()) {
                    result = text;
                }
            },
        }
        step += 1;
    }
    proof {
        lemma_third_never_ends(start);
    }
    Err(QuestError::ResourceExhaustion)
}

/// The dance puzzle with its title, its inputs and its solver.
pub fn assemble() -> (quest: Quest)
    ensures
        quest.title@ == "Quest 2024 5: Pseudo-Random Clap Dance"@,
        quest.input_loader@ == QuestInputLoader::with_quest_date_spec(2024, 5),
        forall|input: Seq<char>| quest.solution.first_answer(input) == #[trigger] first_of(5, input),
        forall|input: Seq<char>|
            quest.solution.second_answer(input) == #[trigger] second_of(5, input),
        forall|input: Seq<char>| quest.solution.third_answer(input) == #[trigger] third_of(5, input),
{
    let quest = Quest {
        title: "Quest 2024 5: Pseudo-Random Clap Dance".to_owned(),
        input_loader: QuestInputLoader::with_quest_date(2024, 5),
        solution: Box::new(Q2024_5),
    };
    proof {
        assert forall|input: Seq<char>|
            quest.solution.first_answer(input) == #[trigger] first_of(5, input) by {
            assert(first_of(5, input) == Q2024_5.first_answer(input));
        }
        assert forall|input: Seq<char>|
            quest.solution.second_answer(input) == #[trigger] second_of(5, input) by {
            assert(second_of(5, input) == Q2024_5.second_answer(input));
        }
        assert forall|input: Seq<char>|
            quest.solution.third_answer(input) == #[trigger] third_of(5, input) by {
            assert(third_of(5, input) == Q2024_5.third_answer(input));
        }
    }
    quest
}

/// The solver of the dance puzzle.
#[allow(non_camel_case_types)]
pub struct Q2024_5;

/// The number of rounds of the first dance.
pub const FIRST_DANCE: usize = 10;

impl Solution for Q2024_5 {
    /// What is shouted after ten rounds.
    open spec fn first_answer(&self, input: Seq<char>) -> Result<Seq<char>, QuestError> {
        match parse_outcome(input) {
            Ok(cols) => movements_outcome(cols, FIRST_DANCE as nat),
            Err(error) => Err(error),
        }
    }

    /// The number first shouted for the `REPEATS`th time, times the rounds
    /// danced until then.
    open spec fn second_answer(&self, input: Seq<char>) -> Result<Seq<char>, QuestError> {
        match parse_outcome(input) {
            Ok(cols) => second_outcome(cols),
            Err(error) => Err(error),
        }
    }

    /// The greatest shout of the dance.
    open spec fn third_answer(&self, input: Seq<char>) -> Result<Seq<char>, QuestError> {
        match parse_outcome(input) {
            Ok(cols) => third_outcome(cols),
            Err(error) => Err(error),
        }
    }

    fn part_one(&self, input: &str) -> (answer: Result<String, QuestError>) {
        let mut data = parse(input)?;
        make_movements(&mut data, FIRST_DANCE)
    }

    fn part_two(&self, input: &str) -> (answer: Result<String, QuestError>) {
        let mut data = parse(input)?;
        dance_to_finale(&mut data)
    }

    fn part_three(&self, input: &str) -> (answer: Result<String, QuestError>) {
        let mut data = parse(input)?;
        dance_to_exhaustion(&mut data)
    }
}

} // verus!
