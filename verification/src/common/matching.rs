//! Finding a word in a text, the way a scan from left to right finds it:
//! a match is taken where it starts first, and the scan goes on behind it.

use vstd::prelude::*;

verus! {

/// `word` stands in `text` at `at`.
pub open spec fn matches_at(text: Seq<char>, word: Seq<char>, at: int) -> bool {
    &&& 0 <= at
    &&& at + word.len() <= text.len()
    &&& text.subrange(at, at + word.len()) == word
}

/// The number of matches that a scan for `word` finds in `text` from
/// `from` on. Matches do not overlap.
pub open spec fn matches_from(text: Seq<char>, word: Seq<char>, from: int) -> nat
    decreases text.len() - from,
{
    if word.len() == 0 || from < 0 || from + word.len() > text.len() {
        0
    } else if matches_at(text, word, from) {
        1 + matches_from(text, word, from + word.len())
    } else {
        matches_from(text, word, from + 1)
    }
}

/// The number of matches of `word` in `text`. The empty word matches
/// before every character and at the end.
pub open spec fn match_count(text: Seq<char>, word: Seq<char>) -> nat {
    if word.len() == 0 {
        text.len() + 1
    } else {
        matches_from(text, word, 0)
    }
}

/// The positions from `low` up to, but not including, `high`.
pub open spec fn span(low: int, high: int) -> Set<int> {
    Set::new(|i: int| low <= i < high)
}

/// The positions of `text` that lie in a match that a scan for `word`
/// finds from `from` on.
pub open spec fn covered_from(text: Seq<char>, word: Seq<char>, from: int) -> Set<int>
    decreases text.len() - from,
{
    if word.len() == 0 || from < 0 || from + word.len() > text.len() {
        Set::empty()
    } else if matches_at(text, word, from) {
        span(from, from + word.len()) + covered_from(text, word, from + word.len())
    } else {
        covered_from(text, word, from + 1)
    }
}

/// The place in a text of length `len` that a scan meets at `at`: the same
/// place, or for a scan of the reversed text the place counted from the
/// end.
pub open spec fn place(len: int, at: int, mirrored: bool) -> int {
    if mirrored {
        len - 1 - at
    } else {
        at
    }
}

/// Position `at` of `text` lies in a match of `word`, found by a scan of
/// the text or by a scan of the text reversed.
pub open spec fn is_covered(text: Seq<char>, word: Seq<char>, at: int) -> bool {
    ||| covered_from(text, word, 0).contains(at)
    ||| covered_from(text.reverse(), word, 0).contains(text.len() - 1 - at)
}

/// A scan covers only positions of the text, and none before its start.
pub proof fn covered_lies_in_text(text: Seq<char>, word: Seq<char>, from: int)
    ensures
        forall|i: int| covered_from(text, word, from).contains(i) ==> from <= i < text.len(),
    decreases text.len() - from,
{
    if word.len() == 0 || from < 0 || from + word.len() > text.len() {
    } else if matches_at(text, word, from) {
        covered_lies_in_text(text, word, from + word.len());
        assert forall|i: int| covered_from(text, word, from).contains(i) implies from <= i
            < text.len() by {
            assert(span(from, from + word.len()).contains(i) || covered_from(
                text,
                word,
                from + word.len(),
            ).contains(i));
        }
    } else {
        covered_lies_in_text(text, word, from + 1);
        assert forall|i: int| covered_from(text, word, from).contains(i) implies from <= i
            < text.len() by {
            assert(covered_from(text, word, from + 1).contains(i));
        }
    }
}

/// A scan finds at most one match for each character of the text.
pub proof fn matches_are_few(text: Seq<char>, word: Seq<char>, from: int)
    requires
        0 <= from <= text.len(),
    ensures
        matches_from(text, word, from) <= text.len() - from,
    decreases text.len() - from,
{
    if word.len() == 0 || from + word.len() > text.len() {
    } else if matches_at(text, word, from) {
        matches_are_few(text, word, from + word.len());
    } else {
        matches_are_few(text, word, from + 1);
    }
}

/// Whether `word` stands in `text` at `at`.
pub fn is_match(text: &[char], word: &[char], at: usize) -> (found: bool)
    requires
        at + word.len() <= text.len(),
    ensures
        found == matches_at(text@, word@, at as int),
{
    let mut k: usize = 0;
    while k < word.len()
        invariant
            k <= word.len(),
            at + word.len() <= text.len(),
            forall|i: int| 0 <= i < k ==> text@[at + i] == word@[i],
        decreases word.len() - k,
    {
        if text[at + k] != word[k] {
            proof {
                assert(text@.subrange(at as int, at + word.len())[k as int] == text@[at + k]);
            }
            return false;
        }
        k += 1;
    }
    proof {
        assert(text@.subrange(at as int, at + word.len()) =~= word@);
    }
    true
}

/// Counts the matches of `word` in `text`; there is no count beyond the
/// machine's integers.
pub fn count_matches(text: &[char], word: &[char]) -> (count: Option<usize>)
    ensures
        count is Some <==> match_count(text@, word@) <= usize::MAX,
        count is Some ==> count->Some_0 == match_count(text@, word@),
{
    if word.len() == 0 {
        return text.len().checked_add(1);
    }
    if word.len() > text.len() {
        return Some(0);
    }
    let last = text.len() - word.len();
    let mut from: usize = 0;
    let mut count: usize = 0;
    while from <= last
        invariant
            word.len() > 0,
            last == text.len() - word.len(),
            from <= text.len(),
            count <= from,
            count + matches_from(text@, word@, from as int) == matches_from(text@, word@, 0),
        decreases text.len() - from,
    {
        if is_match(text, word, from) {
            count += 1;
            from += word.len();
        } else {
            from += 1;
        }
    }
    Some(count)
}

/// What is marked once a scan has come to `from`: together with what
/// the rest of the scan covers, it is what was marked at the start and
/// what the whole scan covers.
spec fn marks_so_far(
    marks: Seq<bool>,
    start: Seq<bool>,
    scan: Seq<char>,
    word: Seq<char>,
    from: int,
    mirrored: bool,
) -> bool {
    &&& marks.len() == scan.len()
    &&& start.len() == scan.len()
    &&& forall|i: int|
        0 <= i < scan.len() ==> ((#[trigger] marks[i] || covered_from(scan, word, from).contains(
            place(scan.len() as int, i, mirrored),
        )) <==> (start[i] || covered_from(scan, word, 0).contains(
            place(scan.len() as int, i, mirrored),
        )))
}

proof fn lemma_marks_advance(
    marks: Seq<bool>,
    before: Seq<bool>,
    start: Seq<bool>,
    scan: Seq<char>,
    word: Seq<char>,
    from: int,
    mirrored: bool,
)
    requires
        marks_so_far(before, start, scan, word, from, mirrored),
        word.len() > 0,
        0 <= from,
        from + word.len() <= scan.len(),
        marks.len() == scan.len(),
        matches_at(scan, word, from) ==> forall|i: int|
            0 <= i < scan.len() ==> (#[trigger] marks[i] <==> before[i] || span(
                from,
                from + word.len(),
            ).contains(place(scan.len() as int, i, mirrored))),
        !matches_at(scan, word, from) ==> marks == before,
    ensures
        matches_at(scan, word, from) ==> marks_so_far(
            marks,
            start,
            scan,
            word,
            from + word.len(),
            mirrored,
        ),
        !matches_at(scan, word, from) ==> marks_so_far(marks, start, scan, word, from + 1, mirrored),
{
    let len = scan.len() as int;
    let ahead = covered_from(scan, word, from);
    if matches_at(scan, word, from) {
        let rest = covered_from(scan, word, from + word.len());
        assert(ahead == span(from, from + word.len()) + rest);
        assert forall|i: int| 0 <= i < len implies ((#[trigger] marks[i] || rest.contains(
            place(len, i, mirrored),
        )) <==> (start[i] || covered_from(scan, word, 0).contains(place(len, i, mirrored)))) by {
            assert(before[i] || ahead.contains(place(len, i, mirrored)) <==> (start[i]
                || covered_from(scan, word, 0).contains(place(len, i, mirrored))));
        }
    } else {
        assert(ahead == covered_from(scan, word, from + 1));
    }
}

/// Marks the positions that a scan of `scan` for `word` covers. With
/// `mirrored`, `scan` is a text read backwards, and the marks go to the
/// places of the text read forwards.
pub fn mark_matches(scan: &[char], word: &[char], marks: &mut Vec<bool>, mirrored: bool)
    requires
        old(marks).len() == scan.len(),
    ensures
        final(marks).len() == scan.len(),
        forall|i: int|
            0 <= i < scan.len() ==> (#[trigger] final(marks)@[i] <==> old(marks)@[i]
                || covered_from(scan@, word@, 0).contains(place(scan.len() as int, i, mirrored))),
{
    if word.len() == 0 || word.len() > scan.len() {
        return ;
    }
    let len = scan.len();
    let last = len - word.len();
    let ghost start = marks@;
    let mut from: usize = 0;
    while from <= last
        invariant
            word.len() > 0,
            len == scan.len(),
            last == len - word.len(),
            from <= len,
            start == old(marks)@,
            marks_so_far(marks@, start, scan@, word@, from as int, mirrored),
        decreases len - from,
    {
        let ghost before = marks@;
        if is_match(scan, word, from) {
            let mut k: usize = 0;
            while k < word.len()
                invariant
                    k <= word.len(),
                    len == scan.len(),
                    from + word.len() <= len,
                    marks.len() == len,
                    before.len() == len,
                    forall|i: int|
                        0 <= i < len ==> (#[trigger] marks@[i] <==> before[i] || span(
                            from as int,
                            from + k,
                        ).contains(place(len as int, i, mirrored))),
                decreases word.len() - k,
            {
                let at = if mirrored {
                    len - 1 - (from + k)
                } else {
                    from + k
                };
                marks[at] = true;
                k += 1;
            }
            proof {
                lemma_marks_advance(marks@, before, start, scan@, word@, from as int, mirrored);
            }
            from += word.len();
        } else {
            proof {
                lemma_marks_advance(marks@, before, start, scan@, word@, from as int, mirrored);
            }
            from += 1;
        }
    }
    proof {
        assert(covered_from(scan@, word@, from as int) =~= Set::empty());
    }
}

} // verus!
