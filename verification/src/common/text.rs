//! Text as sequences of characters: splitting, trimming and cutting, each
//! with the sequence it computes.

use vstd::prelude::*;

verus! {

/// `String::push` appends one character to the end of the string and leaves
/// the characters before it as they were.
pub assume_specification[ String::push ](text: &mut String, ch: char)
    ensures
        final(text)@ == old(text)@.push(ch),
;

/// The rows of a grid of characters, as sequences.
pub open spec fn rows(grid: Seq<Vec<char>>) -> Seq<Seq<char>> {
    grid.map_values(|row: Vec<char>| row@)
}

/// The characters that count as white space: the code points with the
/// Unicode property `White_Space`.
pub open spec fn is_whitespace(ch: char) -> bool {
    let code = ch as u32;
    ||| 0x09 <= code <= 0x0D
    ||| code == 0x20
    ||| code == 0x85
    ||| code == 0xA0
    ||| code == 0x1680
    ||| 0x2000 <= code <= 0x200A
    ||| code == 0x2028
    ||| code == 0x2029
    ||| code == 0x202F
    ||| code == 0x205F
    ||| code == 0x3000
}

/// The number of bytes that a character takes in a string.
pub open spec fn utf8_width(ch: char) -> nat {
    let code = ch as u32;
    if code < 0x80 {
        1
    } else if code < 0x800 {
        2
    } else if code < 0x10000 {
        3
    } else {
        4
    }
}

/// The pieces of `text` between the occurrences of `sep`: one more piece
/// than there are separators, some of them possibly empty.
pub open spec fn split_spec(text: Seq<char>, sep: char) -> Seq<Seq<char>>
    decreases text.len(),
{
    if text.len() == 0 {
        seq![Seq::empty()]
    } else {
        let before = split_spec(text.drop_last(), sep);
        if text.last() == sep {
            before.push(Seq::empty())
        } else {
            before.drop_last().push(before.last().push(text.last()))
        }
    }
}

/// `pieces` put together again, with `sep` between neighbours.
pub open spec fn join_spec(pieces: Seq<Seq<char>>, sep: char) -> Seq<char>
    decreases pieces.len(),
{
    if pieces.len() == 0 {
        Seq::empty()
    } else if pieces.len() == 1 {
        pieces[0]
    } else {
        join_spec(pieces.drop_last(), sep).push(sep) + pieces.last()
    }
}

/// The number of characters before the first `sep` in `text`; the length of
/// `text` if there is none.
pub open spec fn position(text: Seq<char>, sep: char) -> nat
    decreases text.len(),
{
    if text.len() == 0 || text[0] == sep {
        0
    } else {
        1 + position(text.drop_first(), sep)
    }
}

/// `text` cut at its first `sep`: what stands before it and what stands
/// after it.
pub open spec fn split_once_spec(text: Seq<char>, sep: char) -> Option<(Seq<char>, Seq<char>)> {
    let cut = position(text, sep) as int;
    if cut < text.len() {
        Some((text.take(cut), text.skip(cut + 1)))
    } else {
        None
    }
}

/// The number of white-space characters `text` starts with.
pub open spec fn leading_whitespace(text: Seq<char>) -> nat
    decreases text.len(),
{
    if text.len() > 0 && is_whitespace(text[0]) {
        1 + leading_whitespace(text.drop_first())
    } else {
        0
    }
}

/// The number of white-space characters `text` ends with.
pub open spec fn trailing_whitespace(text: Seq<char>) -> nat
    decreases text.len(),
{
    if text.len() > 0 && is_whitespace(text.last()) {
        1 + trailing_whitespace(text.drop_last())
    } else {
        0
    }
}

/// `text` without the white space at its start and at its end.
pub open spec fn trim_spec(text: Seq<char>) -> Seq<char> {
    let tail = text.skip(leading_whitespace(text) as int);
    tail.take(tail.len() - trailing_whitespace(tail))
}

/// The trimmed forms of `pieces`, without those that are empty.
pub open spec fn trimmed_nonempty(pieces: Seq<Seq<char>>) -> Seq<Seq<char>>
    decreases pieces.len(),
{
    if pieces.len() == 0 {
        Seq::empty()
    } else {
        let before = trimmed_nonempty(pieces.drop_last());
        let piece = trim_spec(pieces.last());
        if piece.len() > 0 {
            before.push(piece)
        } else {
            before
        }
    }
}

/// The lines of `text`, trimmed, without the blank ones.
pub open spec fn trimmed_lines(text: Seq<char>) -> Seq<Seq<char>> {
    trimmed_nonempty(split_spec(text, '\n'))
}

/// A split always yields a piece.
pub proof fn split_yields_pieces(text: Seq<char>, sep: char)
    ensures
        split_spec(text, sep).len() >= 1,
    decreases text.len(),
{
    if text.len() > 0 {
        split_yields_pieces(text.drop_last(), sep);
    }
}

/// No piece of a split holds the separator, and joining the pieces with the
/// separator gives the text back.
pub proof fn split_is_undone_by_join(text: Seq<char>, sep: char)
    ensures
        forall|i: int|
            0 <= i < split_spec(text, sep).len() ==> !(#[trigger] split_spec(text, sep)[i]).contains(
                sep,
            ),
        join_spec(split_spec(text, sep), sep) == text,
    decreases text.len(),
{
    let pieces = split_spec(text, sep);
    if text.len() == 0 {
        assert(join_spec(pieces, sep) =~= text);
    } else {
        let before = split_spec(text.drop_last(), sep);
        split_is_undone_by_join(text.drop_last(), sep);
        split_yields_pieces(text.drop_last(), sep);
        if text.last() == sep {
            assert(pieces.drop_last() =~= before);
            assert(join_spec(pieces, sep) =~= text.drop_last().push(sep));
            assert(text =~= text.drop_last().push(sep));
        } else {
            let grown = before.last().push(text.last());
            assert forall|i: int| 0 <= i < pieces.len() implies !(#[trigger] pieces[i]).contains(
                sep,
            ) by {
                if i == pieces.len() - 1 {
                    assert(!before[i].contains(sep));
                    if grown.contains(sep) {
                        let at = choose|at: int| 0 <= at < grown.len() && grown[at] == sep;
                        assert(before[i][at] == sep);
                    }
                } else {
                    assert(pieces[i] == before[i]);
                }
            }
            if before.len() == 1 {
                assert(join_spec(pieces, sep) =~= text);
            } else {
                assert(pieces.drop_last() =~= before.drop_last());
                assert(join_spec(before, sep) =~= join_spec(before.drop_last(), sep).push(sep)
                    + before.last());
                assert(join_spec(pieces, sep) =~= (join_spec(before.drop_last(), sep).push(sep)
                    + before.last()).push(text.last()));
                assert(text =~= text.drop_last().push(text.last()));
            }
        }
    }
}

/// Where the first separator stands: nothing before it is a separator.
pub proof fn position_is_first(text: Seq<char>, sep: char)
    ensures
        position(text, sep) <= text.len(),
        position(text, sep) < text.len() ==> text[position(text, sep) as int] == sep,
        forall|i: int| 0 <= i < position(text, sep) ==> text[i] != sep,
    decreases text.len(),
{
    if text.len() > 0 && text[0] != sep {
        position_is_first(text.drop_first(), sep);
        assert forall|i: int| 0 <= i < position(text, sep) implies text[i] != sep by {
            if i > 0 {
                assert(text.drop_first()[i - 1] == text[i]);
            }
        }
    }
}

/// Trimming leaves a text without white space at either end, made of what
/// stood between the white space.
pub proof fn trim_is_tight(text: Seq<char>)
    ensures
        leading_whitespace(text) + trailing_whitespace(
            text.skip(leading_whitespace(text) as int),
        ) <= text.len(),
        trim_spec(text).len() > 0 ==> !is_whitespace(trim_spec(text)[0]) && !is_whitespace(
            trim_spec(text).last(),
        ),
{
    let lead = leading_whitespace(text);
    lemma_leading_whitespace(text);
    let tail = text.skip(lead as int);
    lemma_trailing_whitespace(tail);
    let trail = trailing_whitespace(tail);
    let kept = trim_spec(text);
    if kept.len() > 0 {
        assert(kept.last() == tail[tail.len() - trail - 1]);
        assert(kept[0] == text[lead as int]);
    }
}

proof fn lemma_leading_whitespace(text: Seq<char>)
    ensures
        leading_whitespace(text) <= text.len(),
        forall|i: int| 0 <= i < leading_whitespace(text) ==> is_whitespace(#[trigger] text[i]),
        leading_whitespace(text) < text.len() ==> !is_whitespace(
            text[leading_whitespace(text) as int],
        ),
    decreases text.len(),
{
    if text.len() > 0 && is_whitespace(text[0]) {
        lemma_leading_whitespace(text.drop_first());
        assert forall|i: int| 0 <= i < leading_whitespace(text) implies is_whitespace(
            #[trigger] text[i],
        ) by {
            if i > 0 {
                assert(text.drop_first()[i - 1] == text[i]);
            }
        }
    }
}

proof fn lemma_trailing_whitespace(text: Seq<char>)
    ensures
        trailing_whitespace(text) <= text.len(),
        forall|i: int|
            text.len() - trailing_whitespace(text) <= i < text.len() ==> is_whitespace(
                #[trigger] text[i],
            ),
        trailing_whitespace(text) < text.len() ==> !is_whitespace(
            text[text.len() - trailing_whitespace(text) - 1],
        ),
    decreases text.len(),
{
    if text.len() > 0 && is_whitespace(text.last()) {
        lemma_trailing_whitespace(text.drop_last());
        assert forall|i: int|
            text.len() - trailing_whitespace(text) <= i < text.len() implies is_whitespace(
            #[trigger] text[i],
        ) by {
            if i < text.len() - 1 {
                assert(text.drop_last()[i] == text[i]);
            }
        }
    }
}

/// A text that starts with `count` white-space characters and goes on
/// with another character, or ends there, has exactly `count` leading ones.
proof fn lemma_leading_whitespace_found(text: Seq<char>, count: nat)
    requires
        count <= text.len(),
        forall|i: int| 0 <= i < count ==> is_whitespace(#[trigger] text[i]),
        count < text.len() ==> !is_whitespace(text[count as int]),
    ensures
        leading_whitespace(text) == count,
    decreases count,
{
    if count > 0 {
        assert(is_whitespace(text[0]));
        let rest = text.drop_first();
        assert forall|i: int| 0 <= i < count - 1 implies is_whitespace(#[trigger] rest[i]) by {
            assert(rest[i] == text[i + 1]);
        }
        lemma_leading_whitespace_found(rest, (count - 1) as nat);
    }
}

proof fn lemma_trailing_whitespace_found(text: Seq<char>, count: nat)
    requires
        count <= text.len(),
        forall|i: int| text.len() - count <= i < text.len() ==> is_whitespace(#[trigger] text[i]),
        count < text.len() ==> !is_whitespace(text[text.len() - count - 1]),
    ensures
        trailing_whitespace(text) == count,
    decreases count,
{
    if count > 0 {
        assert(is_whitespace(text[text.len() - 1]));
        let rest = text.drop_last();
        assert forall|i: int| rest.len() - (count - 1) <= i < rest.len() implies is_whitespace(
            #[trigger] rest[i],
        ) by {
            assert(rest[i] == text[i]);
        }
        lemma_trailing_whitespace_found(rest, (count - 1) as nat);
    }
}

/// The characters of `text`, in order.
pub fn chars_of(text: &str) -> (chars: Vec<char>)
    ensures
        chars@ == text@,
{
    let mut chars: Vec<char> = Vec::new();
    for ch in iter: text.chars()
        invariant
            iter.seq() == text@,
            chars@ == iter.seq().take(iter.index()),
    {
        chars.push(ch);
    }
    chars
}

/// The string made of `chars`, in order.
pub fn string_of(chars: &[char]) -> (text: String)
    ensures
        text@ == chars@,
{
    let mut text = String::new();
    let mut at: usize = 0;
    while at < chars.len()
        invariant
            at <= chars.len(),
            text@ == chars@.take(at as int),
        decreases chars.len() - at,
    {
        text.push(chars[at]);
        at += 1;
    }
    text
}

/// The characters of `text` from `from` up to, but not including, `to`.
pub fn copy_range(text: &[char], from: usize, to: usize) -> (part: Vec<char>)
    requires
        from <= to <= text.len(),
    ensures
        part@ == text@.subrange(from as int, to as int),
{
    let mut part: Vec<char> = Vec::new();
    let mut at: usize = from;
    while at < to
        invariant
            from <= at <= to <= text.len(),
            part@ == text@.subrange(from as int, at as int),
        decreases to - at,
    {
        part.push(text[at]);
        at += 1;
    }
    part
}

/// Whether `ch` is white space.
pub fn is_space(ch: char) -> (space: bool)
    ensures
        space == is_whitespace(ch),
{
    let code = ch as u32;
    (0x09 <= code && code <= 0x0D) || code == 0x20 || code == 0x85 || code == 0xA0 || code
        == 0x1680 || (0x2000 <= code && code <= 0x200A) || code == 0x2028 || code == 0x2029
        || code == 0x202F || code == 0x205F || code == 0x3000
}

/// The number of bytes that `ch` takes in a string.
pub fn char_width(ch: char) -> (width: usize)
    ensures
        width == utf8_width(ch),
{
    let code = ch as u32;
    if code < 0x80 {
        1
    } else if code < 0x800 {
        2
    } else if code < 0x10000 {
        3
    } else {
        4
    }
}

/// The characters of `text` in reverse order.
pub fn reversed(text: &[char]) -> (turned: Vec<char>)
    ensures
        turned@ == text@.reverse(),
{
    let mut turned: Vec<char> = Vec::new();
    let mut left: usize = text.len();
    while left > 0
        invariant
            left <= text.len(),
            turned@ == text@.reverse().take(text.len() - left),
        decreases left,
    {
        left -= 1;
        turned.push(text[left]);
        proof {
            let done = text.len() - left;
            assert(text@.reverse().take(done) =~= text@.reverse().take(done - 1).push(
                text[left as int],
            ));
        }
    }
    proof {
        assert(text@.reverse().take(text.len() as int) =~= text@.reverse());
    }
    turned
}

/// Whether two texts are the same.
pub fn same_text(text: &[char], other: &[char]) -> (same: bool)
    ensures
        same == (text@ == other@),
{
    if text.len() != other.len() {
        return false;
    }
    let mut at: usize = 0;
    while at < text.len()
        invariant
            at <= text.len(),
            text.len() == other.len(),
            forall|i: int| 0 <= i < at ==> text@[i] == other@[i],
        decreases text.len() - at,
    {
        if text[at] != other[at] {
            return false;
        }
        at += 1;
    }
    proof {
        assert(text@ =~= other@);
    }
    true
}

/// Splits `text` at every `sep`.
pub fn split(text: &[char], sep: char) -> (pieces: Vec<Vec<char>>)
    ensures
        rows(pieces@) == split_spec(text@, sep),
{
    let mut pieces: Vec<Vec<char>> = Vec::new();
    let mut current: Vec<char> = Vec::new();
    let mut at: usize = 0;
    proof {
        assert(rows(pieces@).push(current@) =~= split_spec(text@.take(0), sep));
    }
    while at < text.len()
        invariant
            at <= text.len(),
            rows(pieces@).push(current@) == split_spec(text@.take(at as int), sep),
        decreases text.len() - at,
    {
        let ghost before = rows(pieces@).push(current@);
        proof {
            assert(text@.take(at + 1).drop_last() =~= text@.take(at as int));
            assert(before.drop_last() =~= rows(pieces@));
        }
        if text[at] == sep {
            pieces.push(current);
            current = Vec::new();
            proof {
                assert(rows(pieces@) =~= before);
            }
        } else {
            current.push(text[at]);
        }
        at += 1;
    }
    proof {
        assert(text@.take(at as int) =~= text@);
        assert(rows(pieces@.push(current)) =~= rows(pieces@).push(current@));
    }
    pieces.push(current);
    pieces
}

/// Cuts `text` at its first `sep`.
pub fn split_once(text: &[char], sep: char) -> (parts: Option<(Vec<char>, Vec<char>)>)
    ensures
        match parts {
            Some((head, tail)) => split_once_spec(text@, sep) == Some((head@, tail@)),
            None => split_once_spec(text@, sep) is None,
        },
{
    let mut at: usize = 0;
    proof {
        assert(text@.skip(0) =~= text@);
    }
    while at < text.len() && text[at] != sep
        invariant
            at <= text.len(),
            position(text@, sep) == at + position(text@.skip(at as int), sep),
        decreases text.len() - at,
    {
        proof {
            assert(text@.skip(at as int).drop_first() =~= text@.skip(at + 1));
        }
        at += 1;
    }
    if at < text.len() {
        let head = copy_range(text, 0, at);
        let tail = copy_range(text, at + 1, text.len());
        Some((head, tail))
    } else {
        None
    }
}

/// Removes the white space at both ends of `text`.
pub fn trim(text: &[char]) -> (kept: Vec<char>)
    ensures
        kept@ == trim_spec(text@),
{
    let mut start: usize = 0;
    while start < text.len() && is_space(text[start])
        invariant
            start <= text.len(),
            forall|i: int| 0 <= i < start ==> is_whitespace(#[trigger] text@[i]),
        decreases text.len() - start,
    {
        start += 1;
    }
    let mut end: usize = text.len();
    while end > start && is_space(text[end - 1])
        invariant
            start <= end <= text.len(),
            forall|i: int| end <= i < text.len() ==> is_whitespace(#[trigger] text@[i]),
        decreases end,
    {
        end -= 1;
    }
    proof {
        lemma_leading_whitespace_found(text@, start as nat);
        let tail = text@.skip(start as int);
        lemma_trailing_whitespace_found(tail, (text.len() - end) as nat);
        assert(tail.take(end - start) =~= text@.subrange(start as int, end as int));
    }
    copy_range(text, start, end)
}

/// The lines of `text`, trimmed, without the blank ones.
pub fn lines_of(text: &[char]) -> (lines: Vec<Vec<char>>)
    ensures
        rows(lines@) == trimmed_lines(text@),
{
    let pieces = split(text, '\n');
    let mut lines: Vec<Vec<char>> = Vec::new();
    let mut at: usize = 0;
    while at < pieces.len()
        invariant
            at <= pieces.len(),
            rows(lines@) == trimmed_nonempty(rows(pieces@).take(at as int)),
        decreases pieces.len() - at,
    {
        proof {
            assert(rows(pieces@).take(at + 1).drop_last() =~= rows(pieces@).take(at as int));
        }
        let line = trim(pieces[at].as_slice());
        if line.len() > 0 {
            proof {
                assert(rows(lines@.push(line)) =~= rows(lines@).push(line@));
            }
            lines.push(line);
        }
        at += 1;
    }
    proof {
        assert(rows(pieces@).take(at as int) =~= rows(pieces@));
    }
    lines
}

} // verus!
