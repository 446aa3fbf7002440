//! Maps of marks: a mark or none for every cell of a grid.

use vstd::prelude::*;

verus! {

/// The rows of a map of marks, as sequences.
pub open spec fn bits(map: Seq<Vec<bool>>) -> Seq<Seq<bool>> {
    map.map_values(|row: Vec<bool>| row@)
}

/// The number of marks in a row.
pub open spec fn marked_in(row: Seq<bool>) -> nat
    decreases row.len(),
{
    if row.len() == 0 {
        0
    } else {
        marked_in(row.drop_last()) + if row.last() {
            1nat
        } else {
            0nat
        }
    }
}

/// The number of marks on a map.
pub open spec fn marked(map: Seq<Seq<bool>>) -> nat
    decreases map.len(),
{
    if map.len() == 0 {
        0
    } else {
        marked(map.drop_last()) + marked_in(map.last())
    }
}

/// `map` and `other` have rows of the same lengths.
pub open spec fn same_shape(map: Seq<Seq<bool>>, other: Seq<Seq<bool>>) -> bool {
    &&& map.len() == other.len()
    &&& forall|r: int| 0 <= r < map.len() ==> (#[trigger] map[r]).len() == other[r].len()
}

/// Every mark of `inner` is a mark of `outer`.
pub open spec fn within(inner: Seq<Seq<bool>>, outer: Seq<Seq<bool>>) -> bool {
    &&& same_shape(inner, outer)
    &&& forall|r: int, c: int|
        0 <= r < inner.len() && 0 <= c < inner[r].len() && #[trigger] inner[r][c] ==> outer[r][c]
}

/// A row within another has at most as many marks, and as many only if
/// the two are the same.
pub proof fn lemma_row_within(inner: Seq<bool>, outer: Seq<bool>)
    requires
        inner.len() == outer.len(),
        forall|c: int| 0 <= c < inner.len() && #[trigger] inner[c] ==> outer[c],
    ensures
        marked_in(inner) <= marked_in(outer),
        marked_in(inner) == marked_in(outer) ==> inner == outer,
    decreases inner.len(),
{
    if inner.len() > 0 {
        let a = inner.drop_last();
        let b = outer.drop_last();
        assert forall|c: int| 0 <= c < a.len() && #[trigger] a[c] implies b[c] by {
            assert(inner[c]);
        }
        lemma_row_within(a, b);
        if inner.last() {
            assert(inner[inner.len() - 1]);
        }
        if marked_in(inner) == marked_in(outer) {
            assert(inner =~= a.push(inner.last()));
            assert(outer =~= b.push(outer.last()));
        }
    } else {
        assert(inner =~= outer);
    }
}

/// A map within another has at most as many marks, and as many only if the
/// two are the same.
pub proof fn map_within_has_fewer_marks(inner: Seq<Seq<bool>>, outer: Seq<Seq<bool>>)
    requires
        within(inner, outer),
    ensures
        marked(inner) <= marked(outer),
        marked(inner) == marked(outer) ==> inner == outer,
    decreases inner.len(),
{
    if inner.len() > 0 {
        let a = inner.drop_last();
        let b = outer.drop_last();
        assert(within(a, b)) by {
            assert forall|r: int| 0 <= r < a.len() implies (#[trigger] a[r]).len() == b[r].len() by {
                assert(inner[r].len() == outer[r].len());
            }
            assert forall|r: int, c: int|
                0 <= r < a.len() && 0 <= c < a[r].len() && #[trigger] a[r][c] implies b[r][c] by {
                assert(inner[r][c]);
            }
        }
        map_within_has_fewer_marks(a, b);
        let last = inner.len() - 1;
        assert(inner[last].len() == outer[last].len());
        assert forall|c: int| 0 <= c < inner.last().len() && #[trigger] inner.last()[c] implies outer.last()[c] by {
            assert(inner[last][c]);
        }
        lemma_row_within(inner.last(), outer.last());
        if marked(inner) == marked(outer) {
            assert(inner =~= a.push(inner.last()));
            assert(outer =~= b.push(outer.last()));
        }
    } else {
        assert(inner =~= outer);
    }
}

/// The first rows of a map hold at most as many marks as the map.
pub proof fn lemma_marked_grows(map: Seq<Seq<bool>>, upto: int)
    requires
        0 <= upto <= map.len(),
    ensures
        marked(map.take(upto)) <= marked(map),
    decreases map.len() - upto,
{
    if upto < map.len() {
        lemma_marked_grows(map, upto + 1);
        assert(map.take(upto + 1).drop_last() =~= map.take(upto));
    } else {
        assert(map.take(upto) =~= map);
    }
}

/// A new mark in a row is one mark more.
pub proof fn lemma_mark_added(row: Seq<bool>, at: int)
    requires
        0 <= at < row.len(),
        !row[at],
    ensures
        marked_in(row.update(at, true)) == marked_in(row) + 1,
    decreases row.len(),
{
    let marked_row = row.update(at, true);
    if at == row.len() - 1 {
        assert(marked_row.drop_last() =~= row.drop_last());
    } else {
        assert(marked_row.drop_last() =~= row.drop_last().update(at, true));
        lemma_mark_added(row.drop_last(), at);
    }
}

/// A row has at most as many marks as cells.
pub proof fn lemma_marked_in_bounded(row: Seq<bool>)
    ensures
        marked_in(row) <= row.len(),
    decreases row.len(),
{
    if row.len() > 0 {
        lemma_marked_in_bounded(row.drop_last());
    }
}

/// The number of marks on `area`, if it can be counted.
pub fn count_marked(area: &Vec<Vec<bool>>) -> (count: Option<usize>)
    ensures
        count is Some <==> marked(bits(area@)) <= usize::MAX,
        count is Some ==> count->Some_0 == marked(bits(area@)),
{
    let ghost map = bits(area@);
    let mut count: usize = 0;
    let mut r: usize = 0;
    while r < area.len()
        invariant
            r <= area.len(),
            map == bits(area@),
            count == marked(map.take(r as int)),
        decreases area.len() - r,
    {
        let mut here: usize = 0;
        let mut c: usize = 0;
        proof {
            assert(map[r as int] == area[r as int]@);
        }
        while c < area[r].len()
            invariant
                r < area.len(),
                c <= area[r as int].len(),
                here == marked_in(area[r as int]@.take(c as int)),
                here <= c,
            decreases area[r as int].len() - c,
        {
            proof {
                assert(area[r as int]@.take(c + 1).drop_last() =~= area[r as int]@.take(c as int));
            }
            if area[r][c] {
                here += 1;
            }
            c += 1;
        }
        proof {
            assert(area[r as int]@.take(c as int) =~= area[r as int]@);
            assert(map.take(r + 1).drop_last() =~= map.take(r as int));
            lemma_marked_grows(map, r + 1);
        }
        match count.checked_add(here) {
            Some(sum) => {
                count = sum;
            },
            None => {
                return None;
            },
        }
        r += 1;
    }
    proof {
        assert(map.take(r as int) =~= map);
    }
    Some(count)
}


} // verus!
