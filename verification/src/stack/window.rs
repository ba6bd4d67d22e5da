//! The line of candidates behind a sliding-window maximum.
//!
//! While a window slides over `values`, the line holds the indices that can
//! still become the maximum of a window: they increase, their values strictly
//! decrease, and each one's value bounds every value between its predecessor
//! in the line and itself.
use vstd::prelude::*;

verus! {

/// `m` is the greatest of `values[from..to]`, the upper end excluded.
pub open spec fn is_max_in(values: Seq<usize>, from: int, to: int, m: usize) -> bool {
    &&& exists|k: int| from <= k < to && #[trigger] values[k] == m
    &&& forall|k: int| from <= k < to ==> #[trigger] values[k] <= m
}

/// Where the stretch of indices begins that the `q`-th candidate bounds.
pub open spec fn stretch_start(line: Seq<usize>, lo: int, q: int) -> int {
    if q == 0 {
        lo
    } else {
        line[q - 1] + 1
    }
}

/// The value of the `q`-th candidate bounds the values of its stretch.
pub open spec fn bounds_stretch(line: Seq<usize>, values: Seq<usize>, lo: int, q: int) -> bool {
    forall|k: int|
        stretch_start(line, lo, q) <= k <= line[q] ==> #[trigger] values[k] <= values[line[q] as int]
}

/// Candidate `q` stands before candidate `r` with a greater value.
pub open spec fn descends(line: Seq<usize>, values: Seq<usize>, q: int, r: int) -> bool {
    line[q] < line[r] && values[line[q] as int] > values[line[r] as int]
}

/// The line is a line of candidates for windows that begin at `lo` or later
/// and end before `hi`.
pub open spec fn candidates(line: Seq<usize>, values: Seq<usize>, lo: int, hi: int) -> bool {
    &&& 0 <= lo
    &&& hi <= values.len()
    &&& forall|q: int| 0 <= q < line.len() ==> #[trigger] line[q] < hi
    &&& forall|q: int| 0 <= q < line.len() ==> #[trigger] bounds_stretch(line, values, lo, q)
    &&& forall|q: int, r: int| 0 <= q < r < line.len() ==> #[trigger] descends(line, values, q, r)
}

/// The first candidate bounds every value from `lo` up to the `r`-th
/// candidate.
pub proof fn lemma_front_bounds(line: Seq<usize>, values: Seq<usize>, lo: int, hi: int, r: int)
    requires
        candidates(line, values, lo, hi),
        0 <= r < line.len(),
    ensures
        forall|k: int| lo <= k <= line[r] ==> #[trigger] values[k] <= values[line[0] as int],
    decreases r,
{
    assert(bounds_stretch(line, values, lo, r));
    if r > 0 {
        lemma_front_bounds(line, values, lo, hi, r - 1);
        assert(descends(line, values, 0, r));
    }
}

/// If the line begins inside the window and reaches to its end, its first
/// candidate is the maximum of the window.
pub proof fn lemma_front_is_max(line: Seq<usize>, values: Seq<usize>, lo: int, hi: int)
    requires
        candidates(line, values, lo, hi),
        line.len() > 0,
        lo <= line[0],
        line.last() == hi - 1,
    ensures
        is_max_in(values, lo, hi, values[line[0] as int]),
{
    lemma_front_bounds(line, values, lo, hi, line.len() - 1);
    assert(bounds_stretch(line, values, lo, 0));
    assert(values[line[0] as int] == values[line[0] as int]);
}

/// The line without its last candidate is a line of candidates.
pub proof fn lemma_drop_back(line: Seq<usize>, values: Seq<usize>, lo: int, hi: int)
    requires
        candidates(line, values, lo, hi),
        line.len() > 0,
    ensures
        candidates(line.drop_last(), values, lo, hi),
{
    let rest = line.drop_last();
    assert forall|q: int| 0 <= q < rest.len() implies #[trigger] bounds_stretch(
        rest,
        values,
        lo,
        q,
    ) by {
        assert(bounds_stretch(line, values, lo, q));
        assert(rest[q] == line[q]);
        assert(stretch_start(rest, lo, q) == stretch_start(line, lo, q));
    }
    assert forall|q: int, r: int| 0 <= q < r < rest.len() implies #[trigger] descends(
        rest,
        values,
        q,
        r,
    ) by {
        assert(rest[q] == line[q] && rest[r] == line[r]);
        assert(descends(line, values, q, r));
    }
    assert forall|q: int| 0 <= q < rest.len() implies #[trigger] rest[q] < hi by {
        assert(rest[q] == line[q]);
    }
}

/// The index `i` may join the back of the line when its value is below that
/// of the last candidate and bounds everything after that candidate.
pub proof fn lemma_join_back(line: Seq<usize>, values: Seq<usize>, lo: int, i: usize)
    requires
        candidates(line, values, lo, i as int),
        lo <= i < values.len(),
        line.len() > 0 ==> values[line[line.len() - 1] as int] > values[i as int],
        forall|k: int|
            stretch_start(line, lo, line.len() as int) <= k < i ==> #[trigger] values[k]
                <= values[i as int],
    ensures
        candidates(line.push(i), values, lo, i + 1),
{
    let longer = line.push(i);
    let n = line.len() as int;
    assert forall|q: int| 0 <= q < longer.len() implies #[trigger] bounds_stretch(
        longer,
        values,
        lo,
        q,
    ) by {
        if q < n {
            assert(bounds_stretch(line, values, lo, q));
            assert(longer[q] == line[q]);
            assert(stretch_start(longer, lo, q) == stretch_start(line, lo, q));
        } else {
            assert(longer[q] == i);
            assert(stretch_start(longer, lo, n) == stretch_start(line, lo, n));
        }
    }
    assert forall|q: int, r: int| 0 <= q < r < longer.len() implies #[trigger] descends(
        longer,
        values,
        q,
        r,
    ) by {
        assert(longer[q] == line[q]);
        if r < n {
            assert(longer[r] == line[r]);
            assert(descends(line, values, q, r));
        } else {
            assert(longer[r] == i);
            assert(line[q] < i);
            if q < n - 1 {
                assert(descends(line, values, q, n - 1));
            }
        }
    }
    assert forall|q: int| 0 <= q < longer.len() implies #[trigger] longer[q] < i + 1 by {
        if q < n {
            assert(longer[q] == line[q]);
        }
    }
}

/// Once the window begins after the first candidate, the line without it is
/// a line of candidates.
pub proof fn lemma_drop_front(line: Seq<usize>, values: Seq<usize>, lo: int, hi: int, later: int)
    requires
        candidates(line, values, lo, hi),
        line.len() > 0,
        line[0] < later,
    ensures
        candidates(line.drop_first(), values, later, hi),
{
    let rest = line.drop_first();
    assert forall|q: int| 0 <= q < rest.len() implies #[trigger] rest[q] < hi by {
        assert(rest[q] == line[q + 1]);
    }
    assert forall|q: int| 0 <= q < rest.len() implies #[trigger] bounds_stretch(
        rest,
        values,
        later,
        q,
    ) by {
        assert(bounds_stretch(line, values, lo, q + 1));
        assert(rest[q] == line[q + 1]);
        if q > 0 {
            assert(rest[q - 1] == line[q]);
        }
        assert(stretch_start(line, lo, q + 1) <= stretch_start(rest, later, q));
    }
    assert forall|q: int, r: int| 0 <= q < r < rest.len() implies #[trigger] descends(
        rest,
        values,
        q,
        r,
    ) by {
        assert(rest[q] == line[q + 1] && rest[r] == line[r + 1]);
        assert(descends(line, values, q + 1, r + 1));
    }
}

/// A line of candidates stays one when the windows begin later.
pub proof fn lemma_begin_later(line: Seq<usize>, values: Seq<usize>, lo: int, hi: int, later: int)
    requires
        candidates(line, values, lo, hi),
        lo <= later,
    ensures
        candidates(line, values, later, hi),
{
    assert forall|q: int| 0 <= q < line.len() implies #[trigger] bounds_stretch(
        line,
        values,
        later,
        q,
    ) by {
        assert(bounds_stretch(line, values, lo, q));
    }
}

} // verus!
