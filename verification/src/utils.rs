use vstd::prelude::*;
use crate::data::{eq_spec, is_finite, is_finite_spec, le_spec, lt_spec, MatrixData};
use crate::order::{
    all_numbers, dedup, distinct_values, is_ascending, is_stable_order, lemma_dedup_ascending,
    lemma_dedup_keeps, lemma_sorted_values, sort_indices, sorted_order, sorted_values,
};

verus! {

/// Whatever is at most `v` stands in front: once an item of `x` is not at
/// most `v`, none behind it is. It holds of an ascending `x`, and of any `x`
/// when `v` is not a number.
pub open spec fn at_most_is_a_prefix<T: MatrixData>(x: Seq<T>, v: T) -> bool {
    forall|i: int, j: int|
        0 <= i <= j < x.len() && #[trigger] le_spec(x[j], v) ==> #[trigger] le_spec(x[i], v)
}

/// The number of items of `x` that are at most `v`.
pub open spec fn count_at_most<T: MatrixData>(x: Seq<T>, v: T) -> nat
    decreases x.len(),
{
    if x.len() == 0 {
        0
    } else {
        count_at_most(x.drop_last(), v) + if le_spec(x.last(), v) {
            1nat
        } else {
            0nat
        }
    }
}

/// Where exactly the first `p` items are at most `v`, `p` is their count.
pub proof fn lemma_count_at_most_is_boundary<T: MatrixData>(x: Seq<T>, v: T, p: int)
    requires
        0 <= p <= x.len(),
        forall|i: int| 0 <= i < p ==> le_spec(#[trigger] x[i], v),
        forall|i: int| p <= i < x.len() ==> !le_spec(#[trigger] x[i], v),
    ensures
        count_at_most(x, v) == p,
    decreases x.len(),
{
    if x.len() > 0 {
        let rest = x.drop_last();
        if p == x.len() {
            lemma_count_at_most_is_boundary(rest, v, p - 1);
        } else {
            lemma_count_at_most_is_boundary(rest, v, p);
        }
    }
}

/// In an ascending `x`, and in any `x` when `v` is not a number, whatever is
/// at most `v` stands in front.
pub proof fn lemma_at_most_is_a_prefix<T: MatrixData>(x: Seq<T>, v: T)
    requires
        is_ascending(x) || v.is_nan_spec(),
    ensures
        at_most_is_a_prefix(x, v),
{
    assert forall|i: int, j: int|
        0 <= i <= j < x.len() && #[trigger] le_spec(x[j], v) implies #[trigger] le_spec(x[i], v) by {
        if i < j {
            assert(le_spec(x[i], x[j]));
        }
    }
}

/// The position of the first item of `x` that is greater than `v`, found by
/// bisection: the number of items that are at most `v`, which stand in front
/// of all others. A `v` that is not a number compares with nothing and
/// gives 0, whatever `x` holds.
///
/// Where the items that are at most `v` do not stand in front, the result is
/// some position of `x`, or its length.
pub fn first_greater_than<T: MatrixData>(x: &[T], v: &T) -> (r: usize)
    ensures
        r <= x@.len(),
        v.is_nan_spec() ==> r == 0,
        is_ascending(x@) ==> forall|i: int|
            0 <= i < x@.len() ==> (le_spec(#[trigger] x@[i], *v) <==> i < r),
        at_most_is_a_prefix(x@, *v) ==> {
            &&& r == count_at_most(x@, *v)
            &&& forall|i: int| 0 <= i < x@.len() ==> (le_spec(#[trigger] x@[i], *v) <==> i < r)
        },
{
    let mut low: usize = 0;
    let mut high: usize = x.len();
    while low != high
        invariant
            low <= high <= x@.len(),
            v.is_nan_spec() ==> low == 0,
            at_most_is_a_prefix(x@, *v) ==> {
                &&& forall|i: int| 0 <= i < low ==> le_spec(#[trigger] x@[i], *v)
                &&& forall|i: int| high <= i < x@.len() ==> !le_spec(#[trigger] x@[i], *v)
            },
        decreases high - low,
    {
        let mid: usize = low + (high - low) / 2;
        let below: bool = x[mid].le(*v);
        proof {
            if at_most_is_a_prefix(x@, *v) {
                if below {
                    assert forall|i: int| 0 <= i < mid + 1 implies le_spec(#[trigger] x@[i], *v) by {
                        assert(le_spec(x@[mid as int], *v));
                    }
                } else {
                    assert forall|i: int| mid <= i < x@.len() implies !le_spec(
                        #[trigger] x@[i],
                        *v,
                    ) by {
                        if le_spec(x@[i], *v) {
                            assert(le_spec(x@[mid as int], *v));
                        }
                    }
                }
            }
        }
        if below {
            low = mid + 1;
        } else {
            high = mid;
        }
    }
    proof {
        if is_ascending(x@) {
            lemma_at_most_is_a_prefix(x@, *v);
        }
        if at_most_is_a_prefix(x@, *v) {
            lemma_count_at_most_is_boundary(x@, *v, low as int);
        }
    }
    low
}

/// The number of items of `cuts` that are smaller than `v`.
pub open spec fn count_below<T: MatrixData>(cuts: Seq<T>, v: T) -> nat
    decreases cuts.len(),
{
    if cuts.len() == 0 {
        0
    } else {
        count_below(cuts.drop_last(), v) + if lt_spec(cuts.last(), v) {
            1nat
        } else {
            0nat
        }
    }
}

/// The bin of `v` under the boundaries `cuts`: 0 for a missing value, else
/// one more than the number of boundaries below `v`. Bin `k` thus holds the
/// values above `cuts[k - 2]` and up to `cuts[k - 1]`.
pub open spec fn bin_index<T: MatrixData>(cuts: Seq<T>, v: T) -> nat {
    if is_finite_spec(v) {
        1 + count_below(cuts, v)
    } else {
        0
    }
}

/// Where exactly the first `p` items are below `v`, `p` is their count.
pub proof fn lemma_count_below_is_boundary<T: MatrixData>(cuts: Seq<T>, v: T, p: int)
    requires
        0 <= p <= cuts.len(),
        forall|i: int| 0 <= i < p ==> lt_spec(#[trigger] cuts[i], v),
        forall|i: int| p <= i < cuts.len() ==> !lt_spec(#[trigger] cuts[i], v),
    ensures
        count_below(cuts, v) == p,
    decreases cuts.len(),
{
    if cuts.len() > 0 {
        let rest = cuts.drop_last();
        if p == cuts.len() {
            lemma_count_below_is_boundary(rest, v, p - 1);
        } else {
            lemma_count_below_is_boundary(rest, v, p);
        }
    }
}

/// The bin of `v` under ascending boundaries, by bisection. `None` where the
/// bin does not fit 16 bits.
pub fn map_bin<T: MatrixData>(cuts: &[T], v: T) -> (r: Option<u16>)
    requires
        is_ascending(cuts@),
    ensures
        r == if bin_index(cuts@, v) <= u16::MAX {
            Some(bin_index(cuts@, v) as u16)
        } else {
            None
        },
{
    if !is_finite(v) {
        return Some(0);
    }
    let mut low: usize = 0;
    let mut high: usize = cuts.len();
    while low != high
        invariant
            low <= high <= cuts@.len(),
            is_ascending(cuts@),
            forall|i: int| 0 <= i < low ==> lt_spec(#[trigger] cuts@[i], v),
            forall|i: int| high <= i < cuts@.len() ==> !lt_spec(#[trigger] cuts@[i], v),
        decreases high - low,
    {
        let mid: usize = low + (high - low) / 2;
        if cuts[mid].lt(v) {
            assert forall|i: int| 0 <= i < mid + 1 implies lt_spec(#[trigger] cuts@[i], v) by {
                if i < mid {
                    assert(le_spec(cuts@[i], cuts@[mid as int]));
                }
            }
            low = mid + 1;
        } else {
            assert forall|i: int| mid <= i < cuts@.len() implies !lt_spec(#[trigger] cuts@[i], v) by {
                if mid < i {
                    assert(le_spec(cuts@[mid as int], cuts@[i]));
                }
            }
            high = mid;
        }
    }
    proof {
        lemma_count_below_is_boundary(cuts@, v, low as int);
    }
    if low < 65535 {
        Some((low + 1) as u16)
    } else {
        None
    }
}

/// The weights `w` of the rows of `v`, in ascending order of the values.
pub open spec fn sorted_weights<T: MatrixData>(v: Seq<T>, w: Seq<T>) -> Seq<T> {
    Seq::new(v.len(), |k: int| w[sorted_order(v)[k] as int])
}

/// The weights added up from zero, from the first to the last.
pub open spec fn total_weight<T: MatrixData>(w: Seq<T>) -> T
    decreases w.len(),
{
    if w.len() == 0 {
        T::ZERO
    } else {
        total_weight(w.drop_last()).add_spec(w.last())
    }
}

/// The share of `total` that the first `k` of the weights `sw` hold, each
/// weight divided by `total` and added to the shares before it.
pub open spec fn mass<T: MatrixData>(sw: Seq<T>, total: T, k: int) -> T
    decreases k,
{
    if k <= 0 {
        T::ZERO
    } else {
        mass(sw, total, k - 1).add_spec(sw[k - 1].div_spec(total))
    }
}

/// Row `k` satisfies the fraction `pct`: the fraction is zero, or the mass
/// up to and with row `k` is at least the fraction.
pub open spec fn reaches<T: MatrixData>(sw: Seq<T>, total: T, k: int, pct: T) -> bool {
    eq_spec(pct, T::ZERO) || le_spec(pct, mass(sw, total, k + 1))
}

/// The first row from `from` on that satisfies `pct`; the number of rows
/// where there is none.
pub open spec fn next_hit<T: MatrixData>(sw: Seq<T>, total: T, pct: T, from: int) -> int
    decreases sw.len() - from,
{
    if from >= sw.len() {
        sw.len() as int
    } else if reaches(sw, total, from, pct) {
        from
    } else {
        next_hit(sw, total, pct, from + 1)
    }
}

/// The value that stands for row `k` of the sorted values `s`: the first of
/// the run of equal values that row `k` belongs to.
pub open spec fn run_head<T: MatrixData>(s: Seq<T>, k: int) -> T {
    dedup(s.take(k + 1)).last()
}

/// The rows, counted in ascending order of the values, that give the
/// fractions from the `j`-th on their boundaries, looked for from row `from`
/// on. Each fraction takes the first row that satisfies it, and the next
/// fraction is looked for from that same row on, so one row can give several
/// fractions their boundary. Once a fraction finds no row, all that follow it
/// go without.
pub open spec fn boundary_rows<T: MatrixData>(
    sw: Seq<T>,
    total: T,
    pcts: Seq<T>,
    j: int,
    from: int,
) -> Seq<int>
    decreases pcts.len() - j,
{
    if j < 0 || j >= pcts.len() {
        Seq::empty()
    } else {
        let k = next_hit(sw, total, pcts[j], from);
        if k >= sw.len() {
            Seq::empty()
        } else {
            seq![k] + boundary_rows(sw, total, pcts, j + 1, k)
        }
    }
}

/// The rows of `v`, counted in ascending order of the values, that give the
/// fractions `pcts` their boundaries under the weights `w`.
pub open spec fn percentile_rows<T: MatrixData>(v: Seq<T>, w: Seq<T>, pcts: Seq<T>) -> Seq<int> {
    boundary_rows(sorted_weights(v, w), total_weight(w), pcts, 0, 0)
}

/// The boundary values of `v` under the weights `w` at the fractions
/// `pcts`: one for each row of `percentile_rows`.
pub open spec fn percentile_boundaries<T: MatrixData>(v: Seq<T>, w: Seq<T>, pcts: Seq<T>) -> Seq<T> {
    let rows = percentile_rows(v, w, pcts);
    Seq::new(rows.len(), |i: int| run_head(sorted_values(v), rows[i]))
}

/// The first row that satisfies a fraction is a row that satisfies it, and
/// none between `from` and it does.
pub proof fn lemma_next_hit<T: MatrixData>(sw: Seq<T>, total: T, pct: T, from: int)
    requires
        0 <= from,
    ensures
        next_hit(sw, total, pct, from) <= sw.len(),
        from <= sw.len() ==> from <= next_hit(sw, total, pct, from),
        next_hit(sw, total, pct, from) < sw.len() ==> reaches(
            sw,
            total,
            next_hit(sw, total, pct, from),
            pct,
        ),
        forall|k: int| from <= k < next_hit(sw, total, pct, from) ==> !reaches(sw, total, k, pct),
    decreases sw.len() - from,
{
    if from < sw.len() && !reaches(sw, total, from, pct) {
        lemma_next_hit(sw, total, pct, from + 1);
    }
}

/// A fraction that some row from `from` on satisfies finds its row.
pub proof fn lemma_next_hit_finds<T: MatrixData>(sw: Seq<T>, total: T, pct: T, from: int, at: int)
    requires
        0 <= from <= at < sw.len(),
        reaches(sw, total, at, pct),
    ensures
        from <= next_hit(sw, total, pct, from) <= at,
    decreases at - from,
{
    if from < at && !reaches(sw, total, from, pct) {
        lemma_next_hit_finds(sw, total, pct, from + 1, at);
    }
}

/// The row from which the `i`-th of `rows` was looked for, when the first
/// was looked for from `from` on: the row of the fraction before it.
#[verifier::opaque]
pub open spec fn looked_from(rows: Seq<int>, from: int, i: int) -> int {
    if i <= 0 {
        from
    } else {
        rows[i - 1]
    }
}

/// Each row of the boundaries is the first row that satisfies its fraction,
/// looked for from the row of the fraction before it; and where a fraction
/// is left without a row, none satisfies it from there on.
pub proof fn lemma_boundary_rows<T: MatrixData>(
    sw: Seq<T>,
    total: T,
    pcts: Seq<T>,
    j: int,
    from: int,
)
    requires
        0 <= j <= pcts.len(),
        0 <= from,
    ensures
        ({
            let rows = boundary_rows(sw, total, pcts, j, from);
            &&& rows.len() <= pcts.len() - j
            &&& forall|i: int|
                0 <= i < rows.len() ==> {
                    &&& 0 <= #[trigger] rows[i] < sw.len()
                    &&& rows[i] == next_hit(sw, total, pcts[j + i], looked_from(rows, from, i))
                }
            &&& rows.len() < pcts.len() - j ==> next_hit(
                sw,
                total,
                pcts[j + rows.len()],
                looked_from(rows, from, rows.len() as int),
            ) >= sw.len()
        }),
    decreases pcts.len() - j,
{
    let rows = boundary_rows(sw, total, pcts, j, from);
    if j < pcts.len() {
        let k = next_hit(sw, total, pcts[j], from);
        lemma_next_hit(sw, total, pcts[j], from);
        if k < sw.len() {
            let rest = boundary_rows(sw, total, pcts, j + 1, k);
            lemma_boundary_rows(sw, total, pcts, j + 1, k);
            assert(rows == seq![k] + rest);
            assert(rows[0] == k);
            assert forall|i: int| 0 < i <= rows.len() implies looked_from(rest, k, i - 1)
                == #[trigger] looked_from(rows, from, i) by {
                reveal(looked_from);
                if i > 1 {
                    assert(rows[i - 1] == rest[i - 2]);
                }
            }
            assert(looked_from(rows, from, 0) == from) by {
                reveal(looked_from);
            }
            assert forall|i: int| 0 <= i < rows.len() implies {
                &&& 0 <= #[trigger] rows[i] < sw.len()
                &&& rows[i] == next_hit(sw, total, pcts[j + i], looked_from(rows, from, i))
            } by {
                if i > 0 {
                    assert(rows[i] == rest[i - 1]);
                    assert(pcts[j + i] == pcts[j + 1 + (i - 1)]);
                }
            }
            if rows.len() < pcts.len() - j {
                assert(pcts[j + rows.len()] == pcts[j + 1 + rest.len()]);
            }
        } else {
            assert(looked_from(rows, from, 0) == from) by {
                reveal(looked_from);
            }
        }
    }
}

/// The rows of the boundaries do not descend.
pub proof fn lemma_rows_ascend<T: MatrixData>(sw: Seq<T>, total: T, pcts: Seq<T>, i: int, l: int)
    requires
        0 <= i <= l < boundary_rows(sw, total, pcts, 0, 0).len(),
    ensures
        0 <= boundary_rows(sw, total, pcts, 0, 0)[i] <= boundary_rows(sw, total, pcts, 0, 0)[l],
    decreases l - i,
{
    let rows = boundary_rows(sw, total, pcts, 0, 0);
    lemma_boundary_rows(sw, total, pcts, 0, 0);
    assert(0 <= rows[i]);
    if i < l {
        lemma_rows_ascend(sw, total, pcts, i, l - 1);
        assert(looked_from(rows, 0, l) == rows[l - 1]) by {
            reveal(looked_from);
        }
        assert(rows[l - 1] < sw.len());
        lemma_next_hit(sw, total, pcts[l], rows[l - 1]);
    }
}

/// The value that stands for a row is a value of the column, and equals
/// the value of the row where the column is ascending numbers.
pub proof fn lemma_run_head<T: MatrixData>(s: Seq<T>, k: int)
    requires
        0 <= k < s.len(),
    ensures
        s.contains(run_head(s, k)),
        all_numbers(s) && is_ascending(s) ==> eq_spec(run_head(s, k), s[k]),
{
    let t = s.take(k + 1);
    lemma_dedup_keeps(t);
    let d = dedup(t);
    assert(t.contains(d[d.len() - 1]));
    let i = choose|i: int| 0 <= i < t.len() && t[i] == d[d.len() - 1];
    assert(s[i] == run_head(s, k));
    if all_numbers(s) && is_ascending(s) {
        assert forall|a: int| 0 <= a < t.len() implies !(#[trigger] t[a]).is_nan_spec() by {
            assert(t[a] == s[a]);
        }
        assert forall|a: int, b: int| 0 <= a < b < t.len() implies le_spec(
            #[trigger] t[a],
            #[trigger] t[b],
        ) by {
            assert(le_spec(s[a], s[b]));
        }
        lemma_dedup_ascending(t);
        assert(t.last() == s[k]);
    }
}

/// There are no more boundaries than fractions, each is a value of the
/// column, and where the column holds numbers only they ascend.
pub proof fn lemma_percentile_boundaries<T: MatrixData>(v: Seq<T>, w: Seq<T>, pcts: Seq<T>)
    requires
        v.len() <= usize::MAX,
    ensures
        percentile_boundaries(v, w, pcts).len() <= pcts.len(),
        forall|i: int|
            0 <= i < percentile_boundaries(v, w, pcts).len() ==> v.contains(
                #[trigger] percentile_boundaries(v, w, pcts)[i],
            ),
        all_numbers(v) ==> all_numbers(percentile_boundaries(v, w, pcts)) && is_ascending(
            percentile_boundaries(v, w, pcts),
        ),
{
    let s = sorted_values(v);
    let sw = sorted_weights(v, w);
    let total = total_weight(w);
    let rows = percentile_rows(v, w, pcts);
    let b = percentile_boundaries(v, w, pcts);
    lemma_sorted_values(v);
    lemma_boundary_rows(sw, total, pcts, 0, 0);
    assert forall|i: int| 0 <= i < b.len() implies v.contains(#[trigger] b[i]) by {
        lemma_run_head(s, rows[i]);
        let k = choose|k: int| 0 <= k < s.len() && s[k] == run_head(s, rows[i]);
        assert(v.contains(s[k]));
    }
    if all_numbers(v) {
        assert forall|i: int| 0 <= i < b.len() implies !(#[trigger] b[i]).is_nan_spec() by {
            lemma_run_head(s, rows[i]);
        }
        assert forall|i: int, l: int| 0 <= i < l < b.len() implies le_spec(
            #[trigger] b[i],
            #[trigger] b[l],
        ) by {
            lemma_run_head(s, rows[i]);
            lemma_run_head(s, rows[l]);
            lemma_rows_ascend(sw, total, pcts, i, l);
            if rows[i] < rows[l] {
                assert(le_spec(s[rows[i]], s[rows[l]]));
            }
        }
    }
}

/// Each boundary inverts the accumulated mass. The row of a fraction, in
/// ascending order of the values, is a row at which the mass has reached the
/// fraction (or the fraction is zero), and no row before it does, from the
/// first row on for the first fraction and from the row of the fraction
/// before it for the others. The boundary is the value that stands for that
/// row.
pub proof fn lemma_boundary_is_first_to_reach<T: MatrixData>(
    v: Seq<T>,
    w: Seq<T>,
    pcts: Seq<T>,
    i: int,
)
    requires
        v.len() <= usize::MAX,
        0 <= i < percentile_rows(v, w, pcts).len(),
    ensures
        ({
            let rows = percentile_rows(v, w, pcts);
            let sw = sorted_weights(v, w);
            let total = total_weight(w);
            let from = if i == 0 {
                0
            } else {
                rows[i - 1]
            };
            &&& i < pcts.len()
            &&& 0 <= from <= rows[i] < v.len()
            &&& reaches(sw, total, rows[i], pcts[i])
            &&& forall|k: int| from <= k < rows[i] ==> !reaches(sw, total, k, pcts[i])
            &&& percentile_boundaries(v, w, pcts)[i] == run_head(sorted_values(v), rows[i])
            &&& all_numbers(v) ==> eq_spec(
                percentile_boundaries(v, w, pcts)[i],
                sorted_values(v)[rows[i]],
            )
        }),
{
    let rows = percentile_rows(v, w, pcts);
    let sw = sorted_weights(v, w);
    let total = total_weight(w);
    lemma_boundary_rows(sw, total, pcts, 0, 0);
    assert(looked_from(rows, 0, i) == if i == 0 {
        0
    } else {
        rows[i - 1]
    }) by {
        reveal(looked_from);
    }
    if i > 0 {
        assert(0 <= rows[i - 1] < sw.len());
    }
    lemma_next_hit(sw, total, pcts[i], looked_from(rows, 0, i));
    lemma_sorted_values(v);
    lemma_run_head(sorted_values(v), rows[i]);
}

/// The fractions ascend and none is below zero.
pub open spec fn are_ascending_fractions<T: MatrixData>(pcts: Seq<T>) -> bool {
    &&& is_ascending(pcts)
    &&& forall|j: int| 0 <= j < pcts.len() ==> le_spec(T::ZERO, #[trigger] pcts[j])
}

/// Where a row does not satisfy a fraction, it satisfies no greater one.
proof fn lemma_reaches_the_smaller<T: MatrixData>(sw: Seq<T>, total: T, k: int, small: T, great: T)
    requires
        le_spec(T::ZERO, small),
        le_spec(small, great),
        reaches(sw, total, k, great),
    ensures
        reaches(sw, total, k, small),
{
}

/// Where the fractions ascend from zero on, each boundary is the smallest
/// value whose mass reaches its fraction: the row of the fraction satisfies
/// it, and no row before it does, in all of the column; so at no row with a
/// smaller value than the boundary has the mass reached the fraction.
pub proof fn lemma_boundary_is_smallest_to_reach<T: MatrixData>(
    v: Seq<T>,
    w: Seq<T>,
    pcts: Seq<T>,
    i: int,
)
    requires
        v.len() <= usize::MAX,
        are_ascending_fractions(pcts),
        0 <= i < percentile_rows(v, w, pcts).len(),
    ensures
        0 <= percentile_rows(v, w, pcts)[i] < v.len(),
        reaches(sorted_weights(v, w), total_weight(w), percentile_rows(v, w, pcts)[i], pcts[i]),
        forall|k: int|
            0 <= k < percentile_rows(v, w, pcts)[i] ==> !reaches(
                sorted_weights(v, w),
                total_weight(w),
                k,
                pcts[i],
            ),
        all_numbers(v) ==> forall|k: int|
            0 <= k < v.len() && lt_spec(
                #[trigger] sorted_values(v)[k],
                percentile_boundaries(v, w, pcts)[i],
            ) ==> !reaches(sorted_weights(v, w), total_weight(w), k, pcts[i]),
    decreases i,
{
    let rows = percentile_rows(v, w, pcts);
    let sw = sorted_weights(v, w);
    let total = total_weight(w);
    lemma_boundary_is_first_to_reach(v, w, pcts, i);
    if all_numbers(v) {
        let s = sorted_values(v);
        lemma_sorted_values(v);
        assert forall|k: int|
            0 <= k < v.len() && lt_spec(#[trigger] s[k], percentile_boundaries(v, w, pcts)[i]) implies k
            < rows[i] by {
            if k > rows[i] {
                assert(le_spec(s[rows[i]], s[k]));
            }
        }
    }
    if i > 0 {
        lemma_boundary_is_smallest_to_reach(v, w, pcts, i - 1);
        assert(le_spec(pcts[i - 1], pcts[i]));
        assert forall|k: int| 0 <= k < rows[i] implies !reaches(sw, total, k, pcts[i]) by {
            if k < rows[i - 1] {
                if reaches(sw, total, k, pcts[i]) {
                    lemma_reaches_the_smaller(sw, total, k, pcts[i - 1], pcts[i]);
                }
            }
        }
    }
}

/// Where fractions are left without a boundary, no row from the last
/// boundary on satisfies the first of them.
pub proof fn lemma_fraction_without_boundary<T: MatrixData>(v: Seq<T>, w: Seq<T>, pcts: Seq<T>)
    requires
        v.len() <= usize::MAX,
        percentile_rows(v, w, pcts).len() < pcts.len(),
    ensures
        ({
            let rows = percentile_rows(v, w, pcts);
            let from = if rows.len() == 0 {
                0
            } else {
                rows.last()
            };
            forall|k: int|
                from <= k < v.len() ==> !reaches(
                    sorted_weights(v, w),
                    total_weight(w),
                    k,
                    pcts[rows.len() as int],
                )
        }),
{
    let rows = percentile_rows(v, w, pcts);
    let sw = sorted_weights(v, w);
    let total = total_weight(w);
    lemma_boundary_rows(sw, total, pcts, 0, 0);
    let n = rows.len() as int;
    assert(looked_from(rows, 0, n) == if n == 0 {
        0
    } else {
        rows[n - 1]
    }) by {
        reveal(looked_from);
    }
    if n > 0 {
        assert(0 <= rows[n - 1]);
    }
    lemma_next_hit(sw, total, pcts[n], looked_from(rows, 0, n));
}

/// Every fraction gets a boundary where the last row satisfies them all:
/// there are as many boundaries as fractions.
pub proof fn lemma_one_boundary_per_fraction<T: MatrixData>(v: Seq<T>, w: Seq<T>, pcts: Seq<T>)
    requires
        0 < v.len() <= usize::MAX,
        forall|j: int|
            0 <= j < pcts.len() ==> reaches(
                sorted_weights(v, w),
                total_weight(w),
                v.len() - 1,
                #[trigger] pcts[j],
            ),
    ensures
        percentile_rows(v, w, pcts).len() == pcts.len(),
        percentile_boundaries(v, w, pcts).len() == pcts.len(),
{
    let rows = percentile_rows(v, w, pcts);
    let sw = sorted_weights(v, w);
    let total = total_weight(w);
    lemma_boundary_rows(sw, total, pcts, 0, 0);
    let n = rows.len() as int;
    if n < pcts.len() {
        assert(looked_from(rows, 0, n) == if n == 0 {
            0
        } else {
            rows[n - 1]
        }) by {
            reveal(looked_from);
        }
        if n > 0 {
            assert(0 <= rows[n - 1] < sw.len());
        }
        assert(reaches(sw, total, v.len() - 1, pcts[n]));
        lemma_next_hit_finds(sw, total, pcts[n], looked_from(rows, 0, n), v.len() - 1);
    }
}

/// Where the fractions ascend from zero on and the mass at the last row
/// reaches the last of them, there are as many boundaries as fractions.
pub proof fn lemma_one_boundary_per_ascending_fraction<T: MatrixData>(
    v: Seq<T>,
    w: Seq<T>,
    pcts: Seq<T>,
)
    requires
        0 < v.len() <= usize::MAX,
        pcts.len() > 0,
        are_ascending_fractions(pcts),
        reaches(sorted_weights(v, w), total_weight(w), v.len() - 1, pcts.last()),
    ensures
        percentile_boundaries(v, w, pcts).len() == pcts.len(),
{
    let sw = sorted_weights(v, w);
    let total = total_weight(w);
    assert forall|j: int| 0 <= j < pcts.len() implies reaches(
        sw,
        total,
        v.len() - 1,
        #[trigger] pcts[j],
    ) by {
        if j < pcts.len() - 1 {
            assert(le_spec(pcts[j], pcts[pcts.len() - 1]));
            lemma_reaches_the_smaller(sw, total, v.len() - 1, pcts[j], pcts.last());
        }
    }
    lemma_one_boundary_per_fraction(v, w, pcts);
}

/// The sum of the weights.
pub fn sum_weights<T: MatrixData>(w: &[T]) -> (total: T)
    ensures
        total == total_weight(w@),
{
    let mut total: T = T::ZERO;
    let mut i: usize = 0;
    while i < w.len()
        invariant
            i <= w@.len(),
            total == total_weight(w@.take(i as int)),
        decreases w@.len() - i,
    {
        proof {
            assert(w@.take(i + 1).drop_last() == w@.take(i as int));
        }
        total = total.add(w[i]);
        i = i + 1;
    }
    proof {
        assert(w@.take(i as int) == w@);
    }
    total
}

/// Whether the mass `reached` satisfies the fraction `pct`: the fraction is
/// zero, or the mass is at least the fraction.
pub fn is_reached<T: MatrixData>(pct: T, reached: T) -> (b: bool)
    ensures
        b == (eq_spec(pct, T::ZERO) || le_spec(pct, reached)),
{
    pct.eq(T::ZERO) || pct.le(reached)
}

/// The boundary values of `v` at the fractions `percentiles` of the total
/// weight, and the number of distinct values of `v`.
///
/// The rows are walked in ascending order of their values, ties in the order
/// in which they stand in `v`, and values that are not numbers last. Each
/// row adds its share of the total weight to the mass. The pending fraction
/// gets its boundary at the first row at which the mass has reached it, or
/// at once where it is zero; the next fraction is then pending at that same
/// row, so one row gives a boundary to every fraction that it satisfies. A
/// fraction that no row satisfies leaves itself and all behind it without a
/// boundary.
pub fn percentiles_nunique<T: MatrixData>(
    v: &[T],
    sample_weights: &[T],
    percentiles: &[T],
) -> (r: (Vec<T>, i32))
    requires
        sample_weights@.len() == v@.len(),
        percentiles@.len() > 0,
        v@.len() <= i32::MAX,
    ensures
        r.0@ == percentile_boundaries(v@, sample_weights@, percentiles@),
        r.0@.len() <= percentiles@.len(),
        r.1 == distinct_values(v@).len(),
{
    let (p, count) = percentile_walk(v, sample_weights, percentiles);
    proof {
        lemma_dedup_keeps(sorted_values(v@));
        lemma_percentile_boundaries(v@, sample_weights@, percentiles@);
    }
    (p, count as i32)
}

/// The walk behind `percentiles_nunique`, with the number of distinct values
/// as a `usize`.
pub fn percentile_walk<T: MatrixData>(v: &[T], sample_weights: &[T], percentiles: &[T]) -> (r: (
    Vec<T>,
    usize,
))
    requires
        sample_weights@.len() == v@.len(),
    ensures
        r.0@ == percentile_boundaries(v@, sample_weights@, percentiles@),
        r.1 == distinct_values(v@).len(),
{
    let n: usize = v.len();
    let m: usize = percentiles.len();
    let idx = sort_indices(v);
    let total = sum_weights(sample_weights);
    let ghost s = sorted_values(v@);
    let ghost sw = sorted_weights(v@, sample_weights@);
    let ghost pcts = percentiles@;
    let mut p: Vec<T> = Vec::new();
    let mut j: usize = 0;
    let mut pct_cnt: T = T::ZERO;
    let mut nunique: usize = 0;
    let mut current_value: T = T::ZERO;
    let mut k: usize = 0;
    let ghost mut done: Seq<int> = Seq::empty();
    proof {
        assert(s.take(0) =~= Seq::<T>::empty());
        assert(done + boundary_rows(sw, total, pcts, 0, 0) =~= boundary_rows(sw, total, pcts, 0, 0));
    }
    while k < n
        invariant
            n == v@.len(),
            n == sample_weights@.len(),
            m == percentiles@.len(),
            pcts == percentiles@,
            idx@ == sorted_order(v@),
            is_stable_order(v@, 0, n as int, idx@),
            s == sorted_values(v@),
            sw == sorted_weights(v@, sample_weights@),
            k <= n,
            j <= m,
            pct_cnt == mass(sw, total, k as int),
            nunique == dedup(s.take(k as int)).len(),
            nunique <= k,
            k > 0 ==> current_value == dedup(s.take(k as int)).last(),
            done + boundary_rows(sw, total, pcts, j as int, k as int) == boundary_rows(
                sw,
                total,
                pcts,
                0,
                0,
            ),
            p@.len() == done.len(),
            forall|i: int| 0 <= i < done.len() ==> #[trigger] p@[i] == run_head(s, done[i]),
        decreases n - k,
    {
        let row: usize = idx[k];
        let x: T = v[row];
        proof {
            assert(s[k as int] == x);
            assert(sw[k as int] == sample_weights@[row as int]);
            assert(s.take(k + 1).drop_last() == s.take(k as int));
            assert(s.take(k + 1).last() == x);
        }
        if k == 0 || !current_value.eq(x) {
            nunique = nunique + 1;
            current_value = x;
        }
        pct_cnt = pct_cnt.add(sample_weights[row].div(total));
        while j < m && is_reached(percentiles[j], pct_cnt)
            invariant
                m == percentiles@.len(),
                pcts == percentiles@,
                sw.len() == n,
                k < n,
                j <= m,
                pct_cnt == mass(sw, total, k + 1),
                current_value == run_head(s, k as int),
                done + boundary_rows(sw, total, pcts, j as int, k as int) == boundary_rows(
                    sw,
                    total,
                    pcts,
                    0,
                    0,
                ),
                p@.len() == done.len(),
                forall|i: int| 0 <= i < done.len() ==> #[trigger] p@[i] == run_head(s, done[i]),
            decreases m - j,
        {
            proof {
                assert(reaches(sw, total, k as int, pcts[j as int]));
                assert(next_hit(sw, total, pcts[j as int], k as int) == k);
                assert(boundary_rows(sw, total, pcts, j as int, k as int) == seq![k as int]
                    + boundary_rows(sw, total, pcts, j + 1, k as int));
                assert(done.push(k as int) + boundary_rows(sw, total, pcts, j + 1, k as int)
                    =~= done + boundary_rows(sw, total, pcts, j as int, k as int));
                done = done.push(k as int);
            }
            p.push(current_value);
            j = j + 1;
        }
        proof {
            if j < m {
                assert(!reaches(sw, total, k as int, pcts[j as int]));
                assert(next_hit(sw, total, pcts[j as int], k as int) == next_hit(
                    sw,
                    total,
                    pcts[j as int],
                    k + 1,
                ));
            }
            assert(boundary_rows(sw, total, pcts, j as int, k as int) == boundary_rows(
                sw,
                total,
                pcts,
                j as int,
                k + 1,
            ));
        }
        k = k + 1;
    }
    proof {
        assert(s.take(n as int) == s);
        assert(boundary_rows(sw, total, pcts, j as int, n as int) =~= Seq::<int>::empty());
        assert(done + Seq::<int>::empty() =~= done);
        assert(p@ =~= percentile_boundaries(v@, sample_weights@, percentiles@));
    }
    (p, nunique)
}

/// The boundary values of `v` at the fractions `percentiles` of the total
/// weight.
pub fn percentiles<T: MatrixData>(v: &[T], sample_weights: &[T], pcts: &[T]) -> (r: Vec<T>)
    requires
        sample_weights@.len() == v@.len(),
        pcts@.len() > 0,
    ensures
        r@ == percentile_boundaries(v@, sample_weights@, pcts@),
{
    percentile_walk(v, sample_weights, pcts).0
}

/// The items as owned strings.
pub fn items_to_strings(items: Vec<&str>) -> (r: Vec<String>)
    ensures
        r@.len() == items@.len(),
        forall|i: int| 0 <= i < r@.len() ==> (#[trigger] r@[i])@ == items@[i]@,
{
    let mut r: Vec<String> = Vec::new();
    let mut i: usize = 0;
    while i < items.len()
        invariant
            i <= items@.len(),
            r@.len() == i,
            forall|k: int| 0 <= k < i ==> (#[trigger] r@[k])@ == items@[k]@,
        decreases items@.len() - i,
    {
        r.push(items[i].to_owned());
        i = i + 1;
    }
    r
}

} // verus!
