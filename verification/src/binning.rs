use vstd::prelude::*;
use crate::data::{
    eq_spec, is_finite, is_finite_spec, le_spec, lemma_column_entries, lemma_column_in_bounds,
    lemma_entry_offset, lt_spec, Matrix, MatrixData,
};
use crate::errors::ForustError;
use crate::order::{
    all_numbers, dedup, dedup_values, distinct_values, has_equal, is_ascending,
    is_strictly_ascending, lemma_dedup_ascending, lemma_dedup_keeps, lemma_dedup_of_distinct,
    lemma_dedup_of_equal, lemma_sorted_values, sorted_copy, sorted_values,
};
use crate::utils::{
    bin_index, count_below, lemma_percentile_boundaries, map_bin, percentile_boundaries,
    percentile_walk,
};

verus! {

/// The largest number of bins that can be asked for. A column can get
/// `nbins + 1` bins beside the one for missing values, and a bin has 16
/// bits, so 65535 bins are one too many.
pub const MAX_BINS: u16 = 65534;

/// A matrix in bins. Bin 0 holds the missing values of a column; bin `k`,
/// from 1 on, holds the values above `cuts[k - 2]` and up to `cuts[k - 1]`
/// of the column's boundaries, so the values up to the first boundary are in
/// bin 1.
pub struct BinnedData<T> {
    /// The bin of each entry, laid out as the matrix is.
    pub binned_data: Vec<u16>,
    /// The boundaries of each column, strictly ascending; the last is the
    /// largest finite value of the type.
    pub cuts: Vec<Vec<T>>,
    /// The number of distinct finite values in each column.
    pub nunique: Vec<usize>,
}

/// What a `BinnedData` holds.
pub struct BinnedDataView<T> {
    pub binned_data: Seq<u16>,
    pub cuts: Seq<Seq<T>>,
    pub nunique: Seq<usize>,
}

impl<T> View for BinnedData<T> {
    type V = BinnedDataView<T>;

    open spec fn view(&self) -> BinnedDataView<T> {
        BinnedDataView {
            binned_data: self.binned_data@,
            cuts: Seq::new(self.cuts@.len(), |c: int| self.cuts@[c]@),
            nunique: self.nunique@,
        }
    }
}

/// The boundaries end with the largest finite value of the type.
pub open spec fn ends_at_max<T: MatrixData>(cuts: Seq<T>) -> bool {
    cuts.len() > 0 && (cuts.last() == T::MAX || eq_spec(cuts.last(), T::MAX))
}

impl<T: MatrixData> BinnedDataView<T> {
    /// The bins of a matrix of `rows` rows are well formed: every column has
    /// its count and at least three boundaries, strictly ascending up to the
    /// largest finite value of the type, and every entry has a bin of its
    /// column.
    pub open spec fn wf(self, rows: int) -> bool {
        &&& self.nunique.len() == self.cuts.len()
        &&& self.binned_data.len() == rows * self.cuts.len()
        &&& forall|c: int|
            0 <= c < self.cuts.len() ==> {
                &&& (#[trigger] self.cuts[c]).len() >= 3
                &&& is_strictly_ascending(self.cuts[c])
                &&& ends_at_max(self.cuts[c])
            }
        &&& forall|c: int, r: int|
            0 <= c < self.cuts.len() && 0 <= r < rows ==> #[trigger] self.binned_data[c * rows + r]
                <= self.cuts[c].len()
    }
}

/// The finite values of a column, in the order of the rows.
pub open spec fn present_values<T: MatrixData>(col: Seq<T>) -> Seq<T>
    decreases col.len(),
{
    if col.len() == 0 {
        Seq::empty()
    } else {
        let rest = present_values(col.drop_last());
        if is_finite_spec(col.last()) {
            rest.push(col.last())
        } else {
            rest
        }
    }
}

/// The weights of the rows whose value in the column is finite, in the
/// order of the rows.
pub open spec fn present_weights<T: MatrixData>(col: Seq<T>, w: Seq<T>) -> Seq<T>
    decreases col.len(),
{
    if col.len() == 0 {
        Seq::empty()
    } else {
        let rest = present_weights(col.drop_last(), w);
        if is_finite_spec(col.last()) {
            rest.push(w[col.len() - 1])
        } else {
            rest
        }
    }
}

/// The fractions `0, 1/nbins, 2/nbins, ..` up to `(nbins - 1)/nbins`.
pub open spec fn bin_fractions<T: MatrixData>(nbins: u16) -> Seq<T> {
    Seq::new(nbins as nat, |i: int| T::from_u16_spec(i as u16).div_spec(T::from_u16_spec(nbins)))
}

/// The boundaries of a column before the sentinel is added: its distinct
/// values where there is at most one more of them than fractions, else its
/// percentile boundaries.
pub open spec fn candidate_cuts<T: MatrixData>(v: Seq<T>, w: Seq<T>, pcts: Seq<T>) -> Seq<T> {
    if distinct_values(v).len() <= pcts.len() + 1 {
        distinct_values(v)
    } else {
        percentile_boundaries(v, w, pcts)
    }
}

/// The boundaries of a column: those of its finite values, then the largest
/// finite value of the type, without repeated values.
pub open spec fn column_cuts<T: MatrixData>(col: Seq<T>, w: Seq<T>, nbins: u16) -> Seq<T> {
    dedup(
        candidate_cuts(present_values(col), present_weights(col, w), bin_fractions(nbins)).push(
            T::MAX,
        ),
    )
}

/// Every column gets at least three boundaries.
pub open spec fn has_variance<T: MatrixData>(data: Matrix<T>, w: Seq<T>, nbins: u16) -> bool {
    forall|c: int| 0 <= c < data.cols ==> #[trigger] column_cuts(data.column(c), w, nbins).len() >= 3
}

/// The bins, the boundaries and the counts of a matrix.
pub open spec fn binned_spec<T: MatrixData>(data: Matrix<T>, w: Seq<T>, nbins: u16) -> BinnedDataView<T> {
    BinnedDataView {
        binned_data: Seq::new(
            data.data@.len(),
            |i: int|
                bin_index(column_cuts(data.column(i / (data.rows as int)), w, nbins), data.data@[i]) as u16,
        ),
        cuts: Seq::new(data.cols as nat, |c: int| column_cuts(data.column(c), w, nbins)),
        nunique: Seq::new(
            data.cols as nat,
            |c: int| distinct_values(present_values(data.column(c))).len() as usize,
        ),
    }
}

/// The value `x` belongs in bin `bin` of the boundaries `cuts`: bin 0 is for
/// missing values, and bin `k` for the finite values above `cuts[k - 2]` and
/// up to `cuts[k - 1]`.
pub open spec fn in_bin<T: MatrixData>(cuts: Seq<T>, x: T, bin: int) -> bool {
    if bin == 0 {
        !is_finite_spec(x)
    } else {
        &&& is_finite_spec(x)
        &&& 1 <= bin <= cuts.len()
        &&& le_spec(x, cuts[bin - 1])
        &&& bin >= 2 ==> lt_spec(cuts[bin - 2], x)
    }
}

/// Every entry of the matrix belongs in the bin that it was given.
pub open spec fn bins_hold_entries<T: MatrixData>(data: Matrix<T>, binned: BinnedDataView<T>) -> bool {
    forall|c: int, r: int|
        0 <= c < data.cols && 0 <= r < data.rows ==> in_bin(
            binned.cuts[c],
            #[trigger] data.entry(r, c),
            binned.binned_data[c * data.rows + r] as int,
        )
}

/// The finite values of a column are finite, and no more than its rows.
pub proof fn lemma_present_values<T: MatrixData>(col: Seq<T>, w: Seq<T>)
    ensures
        present_values(col).len() <= col.len(),
        present_weights(col, w).len() == present_values(col).len(),
        forall|i: int|
            0 <= i < present_values(col).len() ==> is_finite_spec(#[trigger] present_values(col)[i]),
        forall|i: int|
            0 <= i < present_values(col).len() ==> col.contains(#[trigger] present_values(col)[i]),
        forall|r: int|
            0 <= r < col.len() && is_finite_spec(col[r]) ==> present_values(col).contains(
                #[trigger] col[r],
            ),
    decreases col.len(),
{
    if col.len() > 0 {
        let rest = col.drop_last();
        lemma_present_values(rest, w);
        let pv = present_values(col);
        let pr = present_values(rest);
        assert forall|i: int| 0 <= i < pv.len() implies col.contains(#[trigger] pv[i]) by {
            if i < pr.len() {
                assert(rest.contains(pr[i]));
                let r = choose|r: int| 0 <= r < rest.len() && rest[r] == pr[i];
                assert(col[r] == pv[i]);
            } else {
                assert(col[col.len() - 1] == pv[i]);
            }
        }
        assert forall|r: int| 0 <= r < col.len() && is_finite_spec(col[r]) implies pv.contains(
            #[trigger] col[r],
        ) by {
            if r < rest.len() {
                assert(rest[r] == col[r]);
                assert(pr.contains(rest[r]));
                let i = choose|i: int| 0 <= i < pr.len() && pr[i] == rest[r];
                assert(pv[i] == col[r]);
            } else {
                assert(pv[pv.len() - 1] == col[r]);
            }
        }
    }
}

/// The number of boundaries below a value is at most their number; where
/// they ascend, it is the boundaries in front that are below the value.
pub proof fn lemma_count_below<T: MatrixData>(cuts: Seq<T>, v: T)
    ensures
        count_below(cuts, v) <= cuts.len(),
        is_ascending(cuts) ==> forall|i: int|
            0 <= i < cuts.len() ==> (lt_spec(#[trigger] cuts[i], v) <==> i < count_below(cuts, v)),
    decreases cuts.len(),
{
    if cuts.len() > 0 {
        let rest = cuts.drop_last();
        lemma_count_below(rest, v);
        if is_ascending(cuts) {
            assert forall|i: int, j: int| 0 <= i < j < rest.len() implies le_spec(
                #[trigger] rest[i],
                #[trigger] rest[j],
            ) by {
                assert(le_spec(cuts[i], cuts[j]));
            }
            assert forall|i: int| 0 <= i < cuts.len() implies (lt_spec(#[trigger] cuts[i], v) <==> i
                < count_below(cuts, v)) by {
                if i < rest.len() {
                    assert(rest[i] == cuts[i]);
                    assert(le_spec(cuts[i], cuts[cuts.len() - 1]));
                    if rest.len() > 0 && count_below(rest, v) < rest.len() {
                        assert(!lt_spec(rest[count_below(rest, v) as int], v));
                        assert(le_spec(cuts[count_below(rest, v) as int], cuts[cuts.len() - 1]));
                    }
                } else {
                    if count_below(rest, v) < rest.len() {
                        assert(!lt_spec(rest[count_below(rest, v) as int], v));
                        assert(le_spec(cuts[count_below(rest, v) as int], cuts[cuts.len() - 1]));
                    }
                }
            }
        }
    }
}

/// Under ascending boundaries whose last is at least every finite value,
/// each value belongs in its bin.
pub proof fn lemma_bin_round_trip<T: MatrixData>(cuts: Seq<T>, x: T)
    requires
        is_ascending(cuts),
        cuts.len() > 0,
        is_finite_spec(x) ==> le_spec(x, cuts.last()),
    ensures
        in_bin(cuts, x, bin_index(cuts, x) as int),
{
    lemma_count_below(cuts, x);
    if is_finite_spec(x) {
        let p = count_below(cuts, x) as int;
        assert(!lt_spec(cuts[cuts.len() - 1], x));
        assert(p < cuts.len());
        assert(!lt_spec(cuts[p], x));
        if p >= 1 {
            assert(lt_spec(cuts[p - 1], x));
        }
    }
}

/// The boundaries of a column are strictly ascending, there are at most two
/// more of them than bins were asked for, and the last is at least every
/// finite value.
pub proof fn lemma_column_cuts<T: MatrixData>(col: Seq<T>, w: Seq<T>, nbins: u16)
    requires
        col.len() <= usize::MAX,
    ensures
        1 <= column_cuts(col, w, nbins).len() <= nbins + 2,
        is_strictly_ascending(column_cuts(col, w, nbins)),
        is_ascending(column_cuts(col, w, nbins)),
        ends_at_max(column_cuts(col, w, nbins)),
        forall|x: T| is_finite_spec(x) ==> le_spec(x, #[trigger] column_cuts(col, w, nbins).last()),
        forall|r: int|
            0 <= r < col.len() ==> bin_index(column_cuts(col, w, nbins), #[trigger] col[r]) <= nbins
                + 1,
{
    let pv = present_values(col);
    let pw = present_weights(col, w);
    let pcts = bin_fractions::<T>(nbins);
    let cand = candidate_cuts(pv, pw, pcts);
    let max = T::MAX;
    let cuts = column_cuts(col, w, nbins);
    lemma_present_values(col, w);
    lemma_sorted_values(pv);
    let sorted = sorted_values(pv);
    assert(all_numbers(pv));
    lemma_dedup_ascending(sorted);
    lemma_dedup_keeps(sorted);
    lemma_percentile_boundaries(pv, pw, pcts);
    // every candidate is a finite value of the column
    assert forall|i: int| 0 <= i < cand.len() implies is_finite_spec(#[trigger] cand[i]) by {
        if distinct_values(pv).len() <= pcts.len() + 1 {
            assert(sorted.contains(cand[i]));
            let k = choose|k: int| 0 <= k < sorted.len() && sorted[k] == cand[i];
            assert(pv.contains(sorted[k]));
        } else {
            assert(pv.contains(cand[i]));
        }
        let a = choose|a: int| 0 <= a < pv.len() && pv[a] == cand[i];
        assert(is_finite_spec(pv[a]));
    }
    assert(is_ascending(cand)) by {
        if distinct_values(pv).len() <= pcts.len() + 1 {
            assert forall|i: int, j: int| 0 <= i < j < cand.len() implies le_spec(
                #[trigger] cand[i],
                #[trigger] cand[j],
            ) by {
                assert(lt_spec(cand[i], cand[j]));
            }
        }
    }
    let full = cand.push(max);
    lemma_dedup_keeps(full);
    if cand.len() == 0 {
        assert(full.drop_last() =~= Seq::<T>::empty());
        assert(dedup(full.drop_last()) =~= Seq::<T>::empty());
        assert(cuts =~= seq![max]);
        assert forall|r: int| 0 <= r < col.len() implies bin_index(cuts, #[trigger] col[r]) <= nbins
            + 1 by {
            lemma_count_below(cuts, col[r]);
            if is_finite_spec(col[r]) {
                assert(!lt_spec(cuts[0], col[r]));
            }
        }
    } else {
        assert(is_finite_spec(cand[0]));
        assert(all_numbers(full)) by {
            assert forall|i: int| 0 <= i < full.len() implies !(#[trigger] full[i]).is_nan_spec() by {
                if i < cand.len() {
                    assert(is_finite_spec(cand[i]));
                }
            }
        }
        assert(is_ascending(full)) by {
            assert forall|i: int, j: int| 0 <= i < j < full.len() implies le_spec(
                #[trigger] full[i],
                #[trigger] full[j],
            ) by {
                assert(is_finite_spec(cand[i]));
                if j < cand.len() {
                    assert(le_spec(cand[i], cand[j]));
                }
            }
        }
        lemma_dedup_ascending(full);
        assert(eq_spec(cuts.last(), max));
        assert forall|r: int| 0 <= r < col.len() implies bin_index(cuts, #[trigger] col[r]) <= nbins
            + 1 by {
            let x = col[r];
            lemma_count_below(cuts, x);
            if is_finite_spec(x) {
                if distinct_values(pv).len() <= pcts.len() + 1 {
                    // the value has an equal among the candidates, in front of the sentinel
                    assert(pv.contains(x));
                    assert(sorted.contains(x));
                    let k = choose|k: int| 0 <= k < sorted.len() && sorted[k] == x;
                    assert(has_equal(cand, sorted[k]));
                    let a = choose|a: int| 0 <= a < cand.len() && eq_spec(cand[a], x);
                    lemma_dedup_of_distinct(cand);
                    assert(full.drop_last() == cand);
                    assert(cuts[a] == cand[a]);
                    assert(!lt_spec(cuts[a], x));
                } else {
                    assert(!lt_spec(cuts[cuts.len() - 1], x));
                }
            }
        }
    }
    assert forall|i: int, j: int| 0 <= i < j < cuts.len() implies le_spec(
        #[trigger] cuts[i],
        #[trigger] cuts[j],
    ) by {
        assert(lt_spec(cuts[i], cuts[j]));
    }
}

/// The finite values of a column and the weights of their rows.
pub fn present_rows<T: MatrixData>(col: &[T], sample_weight: &[T]) -> (r: (Vec<T>, Vec<T>))
    requires
        sample_weight@.len() == col@.len(),
    ensures
        r.0@ == present_values(col@),
        r.1@ == present_weights(col@, sample_weight@),
{
    let n: usize = col.len();
    let mut values: Vec<T> = Vec::new();
    let mut weights: Vec<T> = Vec::new();
    let mut i: usize = 0;
    proof {
        assert(col@.take(0) =~= Seq::<T>::empty());
    }
    while i < n
        invariant
            n == col@.len(),
            n == sample_weight@.len(),
            i <= n,
            values@ == present_values(col@.take(i as int)),
            weights@ == present_weights(col@.take(i as int), sample_weight@),
        decreases n - i,
    {
        proof {
            assert(col@.take(i + 1).drop_last() == col@.take(i as int));
        }
        if is_finite(col[i]) {
            values.push(col[i]);
            weights.push(sample_weight[i]);
        }
        i = i + 1;
    }
    proof {
        assert(col@.take(n as int) == col@);
    }
    (values, weights)
}

/// The boundaries of a column of finite values before the sentinel is
/// added, and the number of its distinct values.
fn candidates_counted<T: MatrixData>(v: &[T], sample_weight: &[T], pcts: &[T]) -> (r: (
    Vec<T>,
    usize,
))
    requires
        sample_weight@.len() == v@.len(),
    ensures
        r.0@ == candidate_cuts(v@, sample_weight@, pcts@),
        r.1 == distinct_values(v@).len(),
{
    let sorted = sorted_copy(v);
    let distinct = dedup_values(&sorted);
    let count: usize = distinct.len();
    if count == 0 || count - 1 <= pcts.len() {
        (distinct, count)
    } else {
        (percentile_walk(v, sample_weight, pcts).0, count)
    }
}

/// The distinct values of `v` in ascending order where there is at most one
/// more of them than fractions; else the boundary values of `v` at the
/// fractions `pcts` of the weight.
pub fn percentiles_or_value<T: MatrixData>(v: &[T], sample_weight: &[T], pcts: &[T]) -> (r: Vec<T>)
    requires
        sample_weight@.len() == v@.len(),
    ensures
        r@ == candidate_cuts(v@, sample_weight@, pcts@),
{
    candidates_counted(v, sample_weight, pcts).0
}

/// The bin of every entry of the matrix under the boundaries of its column.
pub fn bin_matrix_from_cuts<T: MatrixData>(data: &Matrix<T>, cuts: &[Vec<T>]) -> (binned: Vec<u16>)
    requires
        data.wf(),
        cuts@.len() == data.cols,
        forall|c: int| 0 <= c < data.cols ==> is_ascending(#[trigger] cuts@[c]@),
        forall|c: int, r: int|
            0 <= c < data.cols && 0 <= r < data.rows ==> bin_index(
                cuts@[c]@,
                #[trigger] data.entry(r, c),
            ) <= u16::MAX,
    ensures
        binned@.len() == data.data@.len(),
        forall|c: int, r: int|
            0 <= c < data.cols && 0 <= r < data.rows ==> #[trigger] binned@[c * data.rows + r]
                == bin_index(cuts@[c]@, data.entry(r, c)),
{
    let rows: usize = data.rows;
    let cols: usize = data.cols;
    let mut binned: Vec<u16> = Vec::new();
    let mut c: usize = 0;
    while c < cols
        invariant
            data.wf(),
            rows == data.rows,
            cols == data.cols,
            cuts@.len() == cols,
            forall|c: int| 0 <= c < data.cols ==> is_ascending(#[trigger] cuts@[c]@),
            forall|c: int, r: int|
                0 <= c < data.cols && 0 <= r < data.rows ==> bin_index(
                    cuts@[c]@,
                    #[trigger] data.entry(r, c),
                ) <= u16::MAX,
            c <= cols,
            binned@.len() == c * rows,
            forall|a: int, r: int|
                0 <= a < c && 0 <= r < rows ==> #[trigger] binned@[a * rows + r] == bin_index(
                    cuts@[a]@,
                    data.entry(r, a),
                ),
        decreases cols - c,
    {
        let column_cuts: &Vec<T> = &cuts[c];
        let mut r: usize = 0;
        proof {
            lemma_column_in_bounds(rows as int, cols as int, c as int);
        }
        while r < rows
            invariant
                data.wf(),
                rows == data.rows,
                cols == data.cols,
                c < cols,
                r <= rows,
                column_cuts@ == cuts@[c as int]@,
                is_ascending(column_cuts@),
                forall|r: int|
                    0 <= r < data.rows ==> bin_index(column_cuts@, #[trigger] data.entry(r, c as int))
                        <= u16::MAX,
                c * rows + rows <= rows * cols,
                binned@.len() == c * rows + r,
                forall|a: int, b: int|
                    0 <= a < c && 0 <= b < rows ==> #[trigger] binned@[a * rows + b] == bin_index(
                        cuts@[a]@,
                        data.entry(b, a),
                    ),
                forall|b: int|
                    0 <= b < r ==> #[trigger] binned@[c * rows + b] == bin_index(
                        column_cuts@,
                        data.entry(b, c as int),
                    ),
            decreases rows - r,
        {
            let x: T = data.get(r, c);
            let ghost before = binned@;
            binned.push(map_bin(column_cuts.as_slice(), x).unwrap());
            proof {
                assert forall|a: int, b: int| 0 <= a < c && 0 <= b < rows implies #[trigger] binned@[a
                    * rows + b] == bin_index(cuts@[a]@, data.entry(b, a)) by {
                    lemma_entry_offset(rows as int, c as int, b, a);
                    assert(before[a * rows + b] == bin_index(cuts@[a]@, data.entry(b, a)));
                }
            }
            r = r + 1;
        }
        proof {
            assert((c + 1) * rows == c * rows + rows) by (nonlinear_arith);
            assert forall|a: int, b: int| 0 <= a < c + 1 && 0 <= b < rows implies #[trigger] binned@[a
                * rows + b] == bin_index(cuts@[a]@, data.entry(b, a)) by {
                if a == c {
                    assert(binned@[c * rows + b] == bin_index(column_cuts@, data.entry(b, c as int)));
                }
            }
        }
        c = c + 1;
    }
    proof {
        assert(cols * rows == rows * cols) by (nonlinear_arith);
    }
    binned
}

/// What `bin_matrix` returns: the bins, boundaries and counts of the
/// matrix where every column has at least three boundaries, and
/// `NoVariance` where one has not.
pub open spec fn is_bin_result<T: MatrixData>(
    data: Matrix<T>,
    w: Seq<T>,
    nbins: u16,
    r: Result<BinnedData<T>, ForustError>,
) -> bool {
    match r {
        Ok(binned) => has_variance(data, w, nbins) && binned@ == binned_spec(data, w, nbins),
        Err(e) => !has_variance(data, w, nbins) && e is NoVariance,
    }
}

/// Bins a matrix column by column.
///
/// Of each column the missing values, those that are not finite, are left
/// out with the weights of their rows. The boundaries of the column are its
/// distinct values where there are at most `nbins + 1` of them, else its
/// weighted percentiles at the fractions `0, 1/nbins, ..`; behind them comes
/// the largest finite value of the type, and repeated boundaries go. A
/// column left with fewer than three boundaries fails the whole call. Every
/// entry then gets the bin it belongs in: 0 where it is missing, else one
/// more than the number of boundaries below it.
///
/// The largest bin of a column can be `nbins + 1`, which has to fit 16 bits:
/// `nbins` is `MAX_BINS` at most.
pub fn bin_matrix<T: MatrixData>(data: &Matrix<T>, sample_weight: &[T], nbins: u16) -> (r: Result<
    BinnedData<T>,
    ForustError,
>)
    requires
        data.wf(),
        sample_weight@.len() == data.rows,
        1 <= nbins <= MAX_BINS,
    ensures
        is_bin_result(*data, sample_weight@, nbins, r),
        r matches Ok(binned) ==> binned@.wf(data.rows as int) && bins_hold_entries(*data, binned@),
{
    let ghost w = sample_weight@;
    let mut pcts: Vec<T> = Vec::new();
    let nbins_: T = T::from_u16(nbins);
    let mut i: u16 = 0;
    while i < nbins
        invariant
            i <= nbins,
            nbins_ == T::from_u16_spec(nbins),
            pcts@.len() == i,
            forall|k: int| 0 <= k < i ==> #[trigger] pcts@[k] == bin_fractions::<T>(nbins)[k],
        decreases nbins - i,
    {
        pcts.push(T::from_u16(i).div(nbins_));
        i = i + 1;
    }
    proof {
        assert(pcts@ =~= bin_fractions::<T>(nbins));
    }
    let mut cuts: Vec<Vec<T>> = Vec::new();
    let mut nunique: Vec<usize> = Vec::new();
    let mut c: usize = 0;
    while c < data.cols
        invariant
            data.wf(),
            w == sample_weight@,
            w.len() == data.rows,
            1 <= nbins <= MAX_BINS,
            pcts@ == bin_fractions::<T>(nbins),
            c <= data.cols,
            cuts@.len() == c,
            nunique@.len() == c,
            forall|a: int| 0 <= a < c ==> (#[trigger] cuts@[a])@ == column_cuts(data.column(a), w, nbins),
            forall|a: int| 0 <= a < c ==> column_cuts(#[trigger] data.column(a), w, nbins).len() >= 3,
            forall|a: int|
                0 <= a < c ==> #[trigger] nunique@[a] == distinct_values(
                    present_values(data.column(a)),
                ).len(),
        decreases data.cols - c,
    {
        let col = data.get_col(c);
        proof {
            lemma_column_entries(*data, c as int);
            lemma_present_values(col@, w);
        }
        let (values, weights) = present_rows(col, sample_weight);
        let (mut col_cuts, count) = candidates_counted(
            values.as_slice(),
            weights.as_slice(),
            pcts.as_slice(),
        );
        col_cuts.push(T::MAX);
        let col_cuts = dedup_values(&col_cuts);
        assert(col_cuts@ == column_cuts(data.column(c as int), w, nbins));
        if col_cuts.len() < 3 {
            return Err(ForustError::NoVariance);
        }
        nunique.push(count);
        cuts.push(col_cuts);
        c = c + 1;
    }
    proof {
        assert(has_variance(*data, w, nbins)) by {
            assert forall|a: int| 0 <= a < data.cols implies #[trigger] column_cuts(
                data.column(a),
                w,
                nbins,
            ).len() >= 3 by {
                assert(column_cuts(data.column(a), w, nbins).len() >= 3);
            }
        }
        assert forall|a: int| 0 <= a < data.cols implies is_ascending(#[trigger] cuts@[a]@) by {
            lemma_column_entries(*data, a);
            lemma_column_cuts(data.column(a), w, nbins);
        }
        assert forall|a: int, r: int| 0 <= a < data.cols && 0 <= r < data.rows implies bin_index(
            cuts@[a]@,
            #[trigger] data.entry(r, a),
        ) <= u16::MAX by {
            lemma_column_entries(*data, a);
            lemma_column_cuts(data.column(a), w, nbins);
            assert(bin_index(cuts@[a]@, data.column(a)[r]) <= nbins + 1);
        }
    }
    let binned_data = bin_matrix_from_cuts(data, cuts.as_slice());
    let binned = BinnedData { binned_data, cuts, nunique };
    proof {
        let expected = binned_spec(*data, w, nbins);
        assert(binned@.cuts =~= expected.cuts);
        assert(binned@.nunique =~= expected.nunique);
        assert forall|k: int| 0 <= k < binned@.binned_data.len() implies binned@.binned_data[k]
            == expected.binned_data[k] by {
            lemma_offset_column(data.rows as int, data.cols as int, k);
            let a = k / (data.rows as int);
            let r = k % (data.rows as int);
            assert(binned@.binned_data[a * data.rows + r] == bin_index(
                cuts@[a]@,
                data.entry(r, a),
            ));
        }
        assert(binned@.binned_data =~= expected.binned_data);
        lemma_bins_hold_entries(*data, w, nbins);
    }
    Ok(binned)
}

/// An offset into a `rows` by `cols` buffer names one row of one column.
pub proof fn lemma_offset_column(rows: int, cols: int, k: int)
    requires
        0 <= rows,
        0 <= cols,
        0 <= k < rows * cols,
    ensures
        0 <= k / rows < cols,
        0 <= k % rows < rows,
        k == (k / rows) * rows + k % rows,
{
    assert(rows > 0) by (nonlinear_arith)
        requires
            0 <= rows,
            0 <= k < rows * cols,
    ;
    vstd::arithmetic::div_mod::lemma_fundamental_div_mod(k, rows);
    vstd::arithmetic::div_mod::lemma_div_pos_is_pos(k, rows);
    assert(k / rows < cols) by (nonlinear_arith)
        requires
            rows > 0,
            k < rows * cols,
            k == rows * (k / rows) + k % rows,
            0 <= k % rows,
    ;
    assert((k / rows) * rows == rows * (k / rows)) by (nonlinear_arith);
}

/// Round trip: under the bins, boundaries and counts of a matrix, every
/// entry lies in the range of its bin. A row whose bin is `k`, from 1 on, has
/// its value above `cuts[k - 2]` and up to `cuts[k - 1]`, and a row whose
/// bin is 0 has a value that is not finite.
pub proof fn lemma_bins_hold_entries<T: MatrixData>(data: Matrix<T>, w: Seq<T>, nbins: u16)
    requires
        data.wf(),
        1 <= nbins <= MAX_BINS,
    ensures
        bins_hold_entries(data, binned_spec(data, w, nbins)),
        has_variance(data, w, nbins) ==> binned_spec(data, w, nbins).wf(data.rows as int),
{
    let binned = binned_spec(data, w, nbins);
    assert(data.rows * data.cols == data.cols * data.rows) by (nonlinear_arith);
    if has_variance(data, w, nbins) {
        assert forall|c: int| 0 <= c < binned.cuts.len() implies {
            &&& (#[trigger] binned.cuts[c]).len() >= 3
            &&& is_strictly_ascending(binned.cuts[c])
            &&& ends_at_max(binned.cuts[c])
        } by {
            lemma_column_entries(data, c);
            lemma_column_cuts(data.column(c), w, nbins);
            assert(column_cuts(data.column(c), w, nbins).len() >= 3);
        }
    }
    assert forall|c: int, r: int| 0 <= c < data.cols && 0 <= r < data.rows implies in_bin(
        binned.cuts[c],
        #[trigger] data.entry(r, c),
        binned.binned_data[c * data.rows + r] as int,
    ) by {
        let rows = data.rows as int;
        lemma_entry_offset(rows, data.cols as int, r, c);
        let k = c * rows + r;
        assert(k / rows == c) by {
            vstd::arithmetic::div_mod::lemma_fundamental_div_mod_converse(k, rows, c, r);
        }
        let cuts = column_cuts(data.column(c), w, nbins);
        lemma_column_entries(data, c);
        lemma_column_cuts(data.column(c), w, nbins);
        assert(bin_index(cuts, data.column(c)[r]) <= nbins + 1);
        assert(data.data@[k] == data.entry(r, c));
        lemma_bin_round_trip(cuts, data.entry(r, c));
    }
    if has_variance(data, w, nbins) {
        assert forall|c: int, r: int|
            0 <= c < binned.cuts.len() && 0 <= r < data.rows implies #[trigger] binned.binned_data[c
            * data.rows + r] <= binned.cuts[c].len() by {
            assert(in_bin(
                binned.cuts[c],
                data.entry(r, c),
                binned.binned_data[c * data.rows + r] as int,
            ));
        }
    }
}

/// Binning is a function of its inputs: two results for the same matrix,
/// weights and number of bins hold the same bins, boundaries and counts, or
/// are both the same failure.
pub proof fn lemma_bin_matrix_is_repeatable<T: MatrixData>(
    data: Matrix<T>,
    w: Seq<T>,
    nbins: u16,
    first: Result<BinnedData<T>, ForustError>,
    second: Result<BinnedData<T>, ForustError>,
)
    requires
        is_bin_result(data, w, nbins, first),
        is_bin_result(data, w, nbins, second),
    ensures
        first is Ok <==> second is Ok,
        first is Ok ==> first->Ok_0@ == second->Ok_0@,
        first is Err ==> first->Err_0 is NoVariance && second->Err_0 is NoVariance,
{
}

/// A column with at most `nbins + 1` distinct finite values gets exactly
/// these as its boundaries, in ascending order, and behind them the largest
/// finite value of the type unless it is the last of them already. Each of
/// them is a value of the column, and each finite value of the column equals
/// one of them.
pub proof fn lemma_few_values_are_the_cuts<T: MatrixData>(col: Seq<T>, w: Seq<T>, nbins: u16)
    requires
        col.len() <= usize::MAX,
        distinct_values(present_values(col)).len() <= nbins + 1,
    ensures
        ({
            let distinct = distinct_values(present_values(col));
            &&& column_cuts(col, w, nbins) == if distinct.len() > 0 && eq_spec(
                distinct.last(),
                T::MAX,
            ) {
                distinct
            } else {
                distinct.push(T::MAX)
            }
            &&& is_strictly_ascending(distinct)
            &&& forall|i: int| 0 <= i < distinct.len() ==> col.contains(#[trigger] distinct[i])
            &&& forall|r: int|
                0 <= r < col.len() && is_finite_spec(col[r]) ==> has_equal(distinct, #[trigger] col[r])
        }),
{
    let pv = present_values(col);
    let sorted = sorted_values(pv);
    let distinct = distinct_values(pv);
    lemma_present_values(col, w);
    lemma_sorted_values(pv);
    assert(all_numbers(pv));
    lemma_dedup_ascending(sorted);
    lemma_dedup_keeps(sorted);
    lemma_dedup_of_distinct(distinct);
    assert(distinct.push(T::MAX).drop_last() == distinct);
    assert(bin_fractions::<T>(nbins).len() == nbins);
    assert forall|i: int| 0 <= i < distinct.len() implies col.contains(#[trigger] distinct[i]) by {
        assert(sorted.contains(distinct[i]));
        let k = choose|k: int| 0 <= k < sorted.len() && sorted[k] == distinct[i];
        assert(pv.contains(sorted[k]));
        let a = choose|a: int| 0 <= a < pv.len() && pv[a] == distinct[i];
        assert(col.contains(pv[a]));
    }
    assert forall|r: int| 0 <= r < col.len() && is_finite_spec(col[r]) implies has_equal(
        distinct,
        #[trigger] col[r],
    ) by {
        assert(pv.contains(col[r]));
        assert(sorted.contains(col[r]));
        let k = choose|k: int| 0 <= k < sorted.len() && sorted[k] == col[r];
        assert(has_equal(distinct, sorted[k]));
    }
}

/// A column whose finite values are all equal, a constant column among
/// them, is left with fewer than three boundaries: binning a matrix with
/// such a column fails with `NoVariance`.
pub proof fn lemma_constant_column_has_no_variance<T: MatrixData>(
    data: Matrix<T>,
    w: Seq<T>,
    nbins: u16,
    c: int,
)
    requires
        data.wf(),
        0 <= c < data.cols,
        1 <= nbins,
        forall|i: int, j: int|
            0 <= i < data.rows && 0 <= j < data.rows && is_finite_spec(data.entry(i, c))
                && is_finite_spec(data.entry(j, c)) ==> eq_spec(data.entry(i, c), data.entry(j, c)),
    ensures
        column_cuts(data.column(c), w, nbins).len() < 3,
        !has_variance(data, w, nbins),
{
    let col = data.column(c);
    let pv = present_values(col);
    let sorted = sorted_values(pv);
    lemma_column_entries(data, c);
    lemma_present_values(col, w);
    lemma_sorted_values(pv);
    assert forall|i: int, j: int| 0 <= i < sorted.len() && 0 <= j < sorted.len() implies eq_spec(
        sorted[i],
        sorted[j],
    ) by {
        assert(pv.contains(sorted[i]));
        assert(pv.contains(sorted[j]));
        let a = choose|a: int| 0 <= a < pv.len() && pv[a] == sorted[i];
        let b = choose|b: int| 0 <= b < pv.len() && pv[b] == sorted[j];
        assert(col.contains(pv[a]));
        assert(col.contains(pv[b]));
        let ra = choose|ra: int| 0 <= ra < col.len() && col[ra] == pv[a];
        let rb = choose|rb: int| 0 <= rb < col.len() && col[rb] == pv[b];
        assert(col[ra] == data.entry(ra, c));
        assert(col[rb] == data.entry(rb, c));
        assert(is_finite_spec(pv[a]));
        assert(is_finite_spec(pv[b]));
    }
    lemma_dedup_of_equal(sorted);
    assert(bin_fractions::<T>(nbins).len() == nbins);
    let distinct = distinct_values(pv);
    assert(distinct.len() <= 1);
    assert(candidate_cuts(pv, present_weights(col, w), bin_fractions::<T>(nbins)) == distinct);
    lemma_dedup_keeps(distinct.push(T::MAX));
    assert(column_cuts(col, w, nbins) == dedup(distinct.push(T::MAX)));
    assert(column_cuts(data.column(c), w, nbins).len() < 3);
    assert(!has_variance(data, w, nbins)) by {
        if has_variance(data, w, nbins) {
            assert(column_cuts(data.column(c), w, nbins).len() >= 3);
        }
    }
}

} // verus!
