use vstd::prelude::*;
use rand::rngs::StdRng;
use rand::Rng;
use std::str::FromStr;
use crate::data::{le_spec, FloatData, MatrixData};
use crate::errors::ForustError;
use crate::order::{
    goes_before, is_stable_order, lemma_sorted_order, sort_indices, sorted_order, total_le,
};
use crate::utils::items_to_strings;

verus! {

/// How the rows of a round are chosen.
#[derive(Debug, Clone, Copy, PartialEq, Eq)]
pub enum SampleMethod {
    /// Every eligible row takes part.
    NoSampling,
    /// Each eligible row takes part with a fixed probability.
    Random,
    /// Gradient-based one-sided sampling.
    Goss,
}

/// Reads the method from a configuration string: `"random"` or `"goss"`. Any
/// other string is an error that carries the string, the name of this
/// enumeration and the strings that are accepted.
impl FromStr for SampleMethod {
    type Err = ForustError;

    fn from_str(s: &str) -> (r: Result<Self, Self::Err>)
        ensures
            s@ == "random"@ ==> r == Ok::<SampleMethod, ForustError>(SampleMethod::Random),
            s@ != "random"@ && s@ == "goss"@ ==> r == Ok::<SampleMethod, ForustError>(
                SampleMethod::Goss,
            ),
            s@ != "random"@ && s@ != "goss"@ ==> {
                &&& r matches Err(ForustError::ParseString(value, name, accepted))
                &&& value@ == s@
                &&& name@ == "SampleMethod"@
                &&& accepted@.len() == 2
                &&& accepted@[0]@ == "random"@
                &&& accepted@[1]@ == "goss"@
            },
    {
        let owned: String = s.to_owned();
        if owned == "random".to_owned() {
            Ok(SampleMethod::Random)
        } else if owned == "goss".to_owned() {
            Ok(SampleMethod::Goss)
        } else {
            let mut accepted: Vec<&str> = Vec::new();
            accepted.push("random");
            accepted.push("goss");
            Err(
                ForustError::ParseString(
                    owned,
                    "SampleMethod".to_owned(),
                    items_to_strings(accepted),
                ),
            )
        }
    }
}

/// The generator `StdRng` of the rand crate. Nothing is known of its state:
/// it is only handed on to the draws.
#[verifier::external_type_specification]
#[verifier::external_body]
pub struct ExStdRng(StdRng);

/// `Rng::gen_range` of the rand crate on the range from 0 up to `bound`,
/// without `bound`. It panics on an empty range, so `bound` is positive; what
/// it returns lies in the range. Nothing else is known of a draw.
#[verifier::external_body]
fn draw_below(rng: &mut StdRng, bound: u64) -> (r: u64)
    requires
        bound > 0,
    ensures
        r < bound,
{
    rng.gen_range(0..bound)
}

/// `count` draws from 0 up to `bound`, without `bound`.
pub fn draw_many(rng: &mut StdRng, count: usize, bound: u64) -> (draws: Vec<u64>)
    requires
        bound > 0,
    ensures
        draws@.len() == count,
        forall|i: int| 0 <= i < count ==> #[trigger] draws@[i] < bound,
{
    let mut draws: Vec<u64> = Vec::new();
    let mut i: usize = 0;
    while i < count
        invariant
            bound > 0,
            i <= count,
            draws@.len() == i,
            forall|k: int| 0 <= k < i ==> #[trigger] draws@[k] < bound,
        decreases count - i,
    {
        let d: u64 = draw_below(rng, bound);
        draws.push(d);
        i = i + 1;
    }
    draws
}

/// The rows whose draw is below the threshold, in their order.
pub open spec fn kept_rows(rows: Seq<usize>, draws: Seq<u64>, threshold: int) -> Seq<usize>
    decreases rows.len(),
{
    if rows.len() == 0 {
        Seq::empty()
    } else {
        let rest = kept_rows(rows.drop_last(), draws, threshold);
        if draws[rows.len() - 1] < threshold {
            rest.push(rows.last())
        } else {
            rest
        }
    }
}

/// The rows whose draw is not below the threshold, in their order.
pub open spec fn dropped_rows(rows: Seq<usize>, draws: Seq<u64>, threshold: int) -> Seq<usize>
    decreases rows.len(),
{
    if rows.len() == 0 {
        Seq::empty()
    } else {
        let rest = dropped_rows(rows.drop_last(), draws, threshold);
        if draws[rows.len() - 1] < threshold {
            rest
        } else {
            rest.push(rows.last())
        }
    }
}

/// Parts the rows by their draws: a row is kept where its draw is below the
/// threshold, and dropped where it is not.
pub fn split_rows(rows: &[usize], draws: &[u64], threshold: u64) -> (r: (Vec<usize>, Vec<usize>))
    requires
        draws@.len() == rows@.len(),
    ensures
        r.0@ == kept_rows(rows@, draws@, threshold as int),
        r.1@ == dropped_rows(rows@, draws@, threshold as int),
{
    let n: usize = rows.len();
    let mut kept: Vec<usize> = Vec::new();
    let mut dropped: Vec<usize> = Vec::new();
    let mut i: usize = 0;
    proof {
        assert(rows@.take(0) =~= Seq::<usize>::empty());
    }
    while i < n
        invariant
            n == rows@.len(),
            n == draws@.len(),
            i <= n,
            kept@ == kept_rows(rows@.take(i as int), draws@, threshold as int),
            dropped@ == dropped_rows(rows@.take(i as int), draws@, threshold as int),
        decreases n - i,
    {
        proof {
            assert(rows@.take(i + 1).drop_last() == rows@.take(i as int));
        }
        if draws[i] < threshold {
            kept.push(rows[i]);
        } else {
            dropped.push(rows[i]);
        }
        i = i + 1;
    }
    proof {
        assert(rows@.take(n as int) == rows@);
    }
    (kept, dropped)
}

/// Every row that was kept or dropped is one of the rows.
pub proof fn lemma_split_rows(rows: Seq<usize>, draws: Seq<u64>, threshold: int)
    ensures
        kept_rows(rows, draws, threshold).len() + dropped_rows(rows, draws, threshold).len()
            == rows.len(),
        forall|i: int|
            0 <= i < kept_rows(rows, draws, threshold).len() ==> rows.contains(
                #[trigger] kept_rows(rows, draws, threshold)[i],
            ),
        forall|i: int|
            0 <= i < dropped_rows(rows, draws, threshold).len() ==> rows.contains(
                #[trigger] dropped_rows(rows, draws, threshold)[i],
            ),
    decreases rows.len(),
{
    if rows.len() > 0 {
        let rest = rows.drop_last();
        lemma_split_rows(rest, draws, threshold);
        let kept = kept_rows(rows, draws, threshold);
        let dropped = dropped_rows(rows, draws, threshold);
        assert forall|i: int| 0 <= i < kept.len() implies rows.contains(#[trigger] kept[i]) by {
            if i < kept_rows(rest, draws, threshold).len() {
                assert(rest.contains(kept[i]));
                let k = choose|k: int| 0 <= k < rest.len() && rest[k] == kept[i];
                assert(rows[k] == kept[i]);
            } else {
                assert(rows[rows.len() - 1] == kept[i]);
            }
        }
        assert forall|i: int| 0 <= i < dropped.len() implies rows.contains(#[trigger] dropped[i]) by {
            if i < dropped_rows(rest, draws, threshold).len() {
                assert(rest.contains(dropped[i]));
                let k = choose|k: int| 0 <= k < rest.len() && rest[k] == dropped[i];
                assert(rows[k] == dropped[i]);
            } else {
                assert(rows[rows.len() - 1] == dropped[i]);
            }
        }
    }
}

/// Where no row stands twice among the rows, none is both kept and
/// dropped.
pub proof fn lemma_split_rows_are_disjoint(rows: Seq<usize>, draws: Seq<u64>, threshold: int)
    requires
        rows.no_duplicates(),
    ensures
        forall|i: int, j: int|
            0 <= i < kept_rows(rows, draws, threshold).len() && 0 <= j < dropped_rows(
                rows,
                draws,
                threshold,
            ).len() ==> #[trigger] kept_rows(rows, draws, threshold)[i] != #[trigger] dropped_rows(
                rows,
                draws,
                threshold,
            )[j],
    decreases rows.len(),
{
    if rows.len() > 0 {
        let rest = rows.drop_last();
        lemma_split_rows_are_disjoint(rest, draws, threshold);
        lemma_split_rows(rest, draws, threshold);
        let kept = kept_rows(rows, draws, threshold);
        let dropped = dropped_rows(rows, draws, threshold);
        let kept_rest = kept_rows(rest, draws, threshold);
        let dropped_rest = dropped_rows(rest, draws, threshold);
        assert forall|i: int, j: int| 0 <= i < kept.len() && 0 <= j < dropped.len() implies #[trigger] kept[i]
            != #[trigger] dropped[j] by {
            if i < kept_rest.len() && j < dropped_rest.len() {
                assert(kept_rest[i] != dropped_rest[j]);
            } else if i < kept_rest.len() {
                assert(rest.contains(kept_rest[i]));
                let k = choose|k: int| 0 <= k < rest.len() && rest[k] == kept_rest[i];
                assert(rows[k] != rows[rows.len() - 1]);
            } else {
                assert(rest.contains(dropped_rest[j]));
                let k = choose|k: int| 0 <= k < rest.len() && rest[k] == dropped_rest[j];
                assert(rows[k] != rows[rows.len() - 1]);
            }
        }
    }
}

/// The number of values a draw for `RandomSampler` can take: a row is
/// included where its draw, out of that many, falls below the rate's share
/// of them.
pub const DRAW_RESOLUTION: u64 = 16_777_216;

/// Every row of `chosen` and of `excluded` is one of `index`.
pub open spec fn drawn_from(index: Seq<usize>, chosen: Seq<usize>, excluded: Seq<usize>) -> bool {
    &&& forall|i: int| 0 <= i < chosen.len() ==> index.contains(#[trigger] chosen[i])
    &&& forall|i: int| 0 <= i < excluded.len() ==> index.contains(#[trigger] excluded[i])
}

/// No row is both in `chosen` and in `excluded`.
pub open spec fn are_disjoint(chosen: Seq<usize>, excluded: Seq<usize>) -> bool {
    forall|i: int, j: int|
        0 <= i < chosen.len() && 0 <= j < excluded.len() ==> #[trigger] chosen[i]
            != #[trigger] excluded[j]
}

/// Every row of `index` has a gradient and a hessian.
pub open spec fn rows_in_range(index: Seq<usize>, len: nat) -> bool {
    forall|i: int| 0 <= i < index.len() ==> #[trigger] index[i] < len
}

/// `r` is what `RandomSampler` returns for the rows `index` when the draws
/// come out as `draws`: one draw for each row, and the rows parted by them.
pub open spec fn is_random_sample(
    index: Seq<usize>,
    draws: Seq<u64>,
    threshold: int,
    r: Result<(Vec<usize>, Vec<usize>), ForustError>,
) -> bool {
    &&& draws.len() == index.len()
    &&& forall|i: int| 0 <= i < draws.len() ==> #[trigger] draws[i] < DRAW_RESOLUTION
    &&& r matches Ok(parts)
    &&& parts.0@ == kept_rows(index, draws, threshold)
    &&& parts.1@ == dropped_rows(index, draws, threshold)
}

/// A sampler picks, from the rows that are eligible, those that the next
/// tree is grown on. The rows it returns are rows of `index`, and no row is
/// both chosen and excluded where none stands twice in `index`.
pub trait Sampler<T: FloatData> {
    /// Samples the rows of `index`: the rows chosen for training, then the
    /// rows left out. The gradients and hessians of the rows may be rescaled.
    fn sample(
        &mut self,
        rng: &mut StdRng,
        index: &[usize],
        grad: &mut [T],
        hess: &mut [T],
    ) -> (r: Result<(Vec<usize>, Vec<usize>), ForustError>)
        requires
            old(grad)@.len() == old(hess)@.len(),
            rows_in_range(index@, old(grad)@.len()),
        ensures
            final(grad)@.len() == old(grad)@.len(),
            final(hess)@.len() == old(hess)@.len(),
            r matches Ok(parts) ==> drawn_from(index@, parts.0@, parts.1@),
            r matches Ok(parts) ==> (index@.no_duplicates() ==> are_disjoint(parts.0@, parts.1@)),
    ;
}

/// The number of draw values, out of `DRAW_RESOLUTION`, on which a row is
/// included at the rate `rate`: the rate times the resolution, cut down to a
/// whole number.
pub open spec fn random_threshold<T: FloatData>(rate: T) -> usize {
    rate.mul_spec(T::from_usize_spec(DRAW_RESOLUTION as usize)).to_usize_spec()
}

/// Includes each row with the same probability, independently.
pub struct RandomSampler<T> {
    subsample: T,
}

impl<T: FloatData> RandomSampler<T> {
    /// The probability with which a row is included.
    pub closed spec fn rate(&self) -> T {
        self.subsample
    }

    /// The number of draw values, out of `DRAW_RESOLUTION`, on which a row
    /// is included: the rate times the resolution, cut down to a whole
    /// number.
    pub open spec fn threshold(&self) -> usize {
        random_threshold(self.rate())
    }

    /// A sampler that includes a row with the probability `subsample`.
    pub fn new(subsample: T) -> (r: Self)
        ensures
            r.rate() == subsample,
    {
        RandomSampler { subsample }
    }
}

impl<T: FloatData> Sampler<T> for RandomSampler<T> {
    /// Each row gets one draw out of `DRAW_RESOLUTION`, in the order of
    /// `index`, and is chosen where the draw is below the threshold, else
    /// excluded. Gradients and hessians stay as they are.
    fn sample(
        &mut self,
        rng: &mut StdRng,
        index: &[usize],
        grad: &mut [T],
        hess: &mut [T],
    ) -> (r: Result<(Vec<usize>, Vec<usize>), ForustError>)
        ensures
            final(self).rate() == old(self).rate(),
            final(grad)@ == old(grad)@,
            final(hess)@ == old(hess)@,
            exists|draws: Seq<u64>| #[trigger]
                is_random_sample(index@, draws, old(self).threshold() as int, r),
    {
        let threshold: usize = self.subsample.mul(T::from_usize(DRAW_RESOLUTION as usize)).to_usize();
        let draws = draw_many(rng, index.len(), DRAW_RESOLUTION);
        let parts = split_rows(index, draws.as_slice(), threshold as u64);
        proof {
            lemma_split_rows(index@, draws@, threshold as int);
            if index@.no_duplicates() {
                lemma_split_rows_are_disjoint(index@, draws@, threshold as int);
            }
        }
        let r = Ok(parts);
        proof {
            assert(threshold == old(self).threshold());
            assert(is_random_sample(index@, draws@, old(self).threshold() as int, r));
        }
        r
    }
}

/// Gradient-based one-sided sampling: the rows with the largest gradients
/// are kept, and of the others a random part, with their gradients and
/// hessians scaled up to make up for the rows that were left out. The two
/// rates are numbers of the type of the gradients.
pub struct GossSampler<T> {
    a: T,
    b: T,
}

/// `x` lies between zero and one, both included.
pub open spec fn is_rate<T: MatrixData>(x: T) -> bool {
    le_spec(T::ZERO, x) && le_spec(x, T::ONE)
}

/// The number of rows, out of `n`, that are kept for their gradient: `a * n`
/// cut down to a whole number, and `n` at most.
pub open spec fn goss_top_n<T: FloatData>(a: T, n: usize) -> usize {
    let top = a.mul_spec(T::from_usize_spec(n)).to_usize_spec();
    if top > n {
        n
    } else {
        top
    }
}

/// The number of rows, out of `n`, that are expected to be kept at random:
/// `b * n` cut down to a whole number.
pub open spec fn goss_rand_n<T: FloatData>(b: T, n: usize) -> usize {
    b.mul_spec(T::from_usize_spec(n)).to_usize_spec()
}

/// The factor `(1 - a) / b` by which a row kept at random is scaled.
pub open spec fn goss_factor<T: FloatData>(a: T, b: T) -> T {
    T::ONE.sub_spec(a).div_spec(b)
}

/// The absolute gradients of the rows of `index`.
pub open spec fn magnitudes<T: FloatData>(index: Seq<usize>, grad: Seq<T>) -> Seq<T> {
    Seq::new(index.len(), |k: int| grad[index[k] as int].abs_spec())
}

/// The rows of `index` from the largest absolute gradient to the smallest.
/// A gradient that is not a number counts as the largest, and of two rows
/// with equal gradients the one that stands later in `index` comes first.
pub open spec fn ranked_rows<T: FloatData>(index: Seq<usize>, grad: Seq<T>) -> Seq<usize> {
    let ascending = sorted_order(magnitudes(index, grad));
    Seq::new(index.len(), |p: int| index[ascending[index.len() - 1 - p] as int])
}

/// The values after the first `upto` of `rows` were looked at: the value of
/// each row whose draw is below the threshold was multiplied by `fact`.
pub open spec fn rescaled<T: MatrixData>(
    values: Seq<T>,
    rows: Seq<usize>,
    draws: Seq<u64>,
    threshold: int,
    fact: T,
    upto: int,
) -> Seq<T>
    decreases upto,
{
    if upto <= 0 {
        values
    } else {
        let before = rescaled(values, rows, draws, threshold, fact, upto - 1);
        let row = rows[upto - 1] as int;
        if draws[upto - 1] < threshold {
            before.update(row, before[row].mul_spec(fact))
        } else {
            before
        }
    }
}

/// What `GossSampler` returns and leaves in the buffers when the draws come
/// out as `draws`.
///
/// With `n` rows, the `goss_top_n` rows in front of the ranking are chosen.
/// Where no row is left behind them, the call fails and nothing changes.
/// Else every row behind them gets one draw out of as many values as there
/// are such rows, is chosen where its draw is below `goss_rand_n`, and has
/// its gradient and hessian multiplied by `goss_factor` then. No row is
/// reported as excluded.
///
/// The rows of `index` are meant to be a set. A row that stands in it more
/// than once is ranked as often, and rescaled as often as it is kept;
/// `lemma_goss_rescales_once` says what holds where none does.
pub open spec fn is_goss_sample<T: FloatData>(
    a: T,
    b: T,
    index: Seq<usize>,
    grad: Seq<T>,
    hess: Seq<T>,
    draws: Seq<u64>,
    r: Result<(Vec<usize>, Vec<usize>), ForustError>,
    grad_after: Seq<T>,
    hess_after: Seq<T>,
) -> bool {
    let n = index.len() as usize;
    let top_n = goss_top_n(a, n);
    let rand_n = goss_rand_n(b, n);
    let pool = n - top_n;
    let ranked = ranked_rows(index, grad);
    let others = ranked.skip(top_n as int);
    if pool == 0 {
        &&& r matches Err(e)
        &&& e is DegenerateSampling
        &&& grad_after == grad
        &&& hess_after == hess
    } else {
        &&& draws.len() == pool
        &&& forall|i: int| 0 <= i < draws.len() ==> #[trigger] draws[i] < pool
        &&& r matches Ok(parts)
        &&& parts.0@ == ranked.take(top_n as int) + kept_rows(others, draws, rand_n as int)
        &&& parts.1@.len() == 0
        &&& grad_after == rescaled(grad, others, draws, rand_n as int, goss_factor(a, b), pool)
        &&& hess_after == rescaled(hess, others, draws, rand_n as int, goss_factor(a, b), pool)
    }
}

/// The ranking lists every row of `index`, from the largest absolute
/// gradient down.
pub proof fn lemma_ranked_rows<T: FloatData>(index: Seq<usize>, grad: Seq<T>)
    requires
        index.len() <= usize::MAX,
    ensures
        ranked_rows(index, grad).len() == index.len(),
        forall|p: int, q: int|
            0 <= p < q < index.len() ==> total_le(
                grad[#[trigger] ranked_rows(index, grad)[q] as int].abs_spec(),
                grad[#[trigger] ranked_rows(index, grad)[p] as int].abs_spec(),
            ),
        forall|k: int| 0 <= k < index.len() ==> ranked_rows(index, grad).contains(#[trigger] index[k]),
        forall|p: int| 0 <= p < index.len() ==> index.contains(#[trigger] ranked_rows(index, grad)[p]),
        index.no_duplicates() ==> ranked_rows(index, grad).no_duplicates(),
{
    let keys = magnitudes(index, grad);
    let ascending = sorted_order(keys);
    let ranked = ranked_rows(index, grad);
    let n = index.len() as int;
    lemma_sorted_order(keys);
    assert forall|p: int, q: int| 0 <= p < q < n implies total_le(
        grad[#[trigger] ranked[q] as int].abs_spec(),
        grad[#[trigger] ranked[p] as int].abs_spec(),
    ) by {
        assert(goes_before(keys, ascending[n - 1 - q] as int, ascending[n - 1 - p] as int));
    }
    assert forall|k: int| 0 <= k < n implies ranked.contains(#[trigger] index[k]) by {
        assert(ascending.contains(k as usize));
        let l = choose|l: int| 0 <= l < ascending.len() && ascending[l] == k as usize;
        assert(ranked[n - 1 - l] == index[k]);
    }
    assert forall|p: int| 0 <= p < n implies index.contains(#[trigger] ranked[p]) by {
        assert(index[ascending[n - 1 - p] as int] == ranked[p]);
    }
    if index.no_duplicates() {
        assert forall|p: int, q: int| 0 <= p < n && 0 <= q < n && p != q implies ranked[p]
            != ranked[q] by {
            if p < q {
                assert(goes_before(keys, ascending[n - 1 - q] as int, ascending[n - 1 - p] as int));
            } else {
                assert(goes_before(keys, ascending[n - 1 - p] as int, ascending[n - 1 - q] as int));
            }
            assert(ascending[n - 1 - p] != ascending[n - 1 - q]);
        }
    }
}

/// What holds of every sample that `GossSampler` returns, whatever the
/// draws: the chosen rows are the `goss_top_n` rows in front of the ranking
/// and behind them the rows kept at random, so there are as many chosen rows
/// as both together; and the ranking descends, so no row outside the first
/// `goss_top_n` has a larger absolute gradient than one of them.
pub proof fn lemma_goss_keeps_the_top<T: FloatData>(
    a: T,
    b: T,
    index: Seq<usize>,
    grad: Seq<T>,
    hess: Seq<T>,
    draws: Seq<u64>,
    r: Result<(Vec<usize>, Vec<usize>), ForustError>,
    grad_after: Seq<T>,
    hess_after: Seq<T>,
)
    requires
        index.len() <= usize::MAX,
        is_goss_sample(a, b, index, grad, hess, draws, r, grad_after, hess_after),
        r is Ok,
    ensures
        ({
            let n = index.len() as usize;
            let top_n = goss_top_n(a, n) as int;
            let ranked = ranked_rows(index, grad);
            let chosen = r->Ok_0.0@;
            let random = kept_rows(ranked.skip(top_n), draws, goss_rand_n(b, n) as int);
            &&& top_n < n
            &&& chosen.len() == top_n + random.len()
            &&& random.len() <= n - top_n
            &&& forall|p: int| 0 <= p < top_n ==> #[trigger] chosen[p] == ranked[p]
            &&& forall|p: int| 0 <= p < random.len() ==> #[trigger] chosen[top_n + p] == random[p]
            &&& forall|p: int, q: int|
                0 <= p < top_n && top_n <= q < n ==> total_le(
                    grad[#[trigger] ranked[q] as int].abs_spec(),
                    grad[#[trigger] ranked[p] as int].abs_spec(),
                )
        }),
{
    let n = index.len() as usize;
    let top_n = goss_top_n(a, n) as int;
    let ranked = ranked_rows(index, grad);
    lemma_ranked_rows(index, grad);
    lemma_split_rows(ranked.skip(top_n), draws, goss_rand_n(b, n) as int);
}

/// Where no row stands twice among `rows`, each of the first `upto` rows is
/// rescaled once or not at all, as its draw says, and every other value
/// stays as it is.
pub proof fn lemma_rescaled_once<T: MatrixData>(
    values: Seq<T>,
    rows: Seq<usize>,
    draws: Seq<u64>,
    threshold: int,
    fact: T,
    upto: int,
)
    requires
        0 <= upto <= rows.len(),
        rows.no_duplicates(),
        rows_in_range(rows, values.len()),
    ensures
        rescaled(values, rows, draws, threshold, fact, upto).len() == values.len(),
        forall|q: int|
            0 <= q < upto ==> rescaled(values, rows, draws, threshold, fact, upto)[#[trigger] rows[q] as int]
                == if draws[q] < threshold {
                values[rows[q] as int].mul_spec(fact)
            } else {
                values[rows[q] as int]
            },
        forall|r: int|
            0 <= r < values.len() && !rows.take(upto).contains(r as usize) ==> #[trigger] rescaled(
                values,
                rows,
                draws,
                threshold,
                fact,
                upto,
            )[r] == values[r],
    decreases upto,
{
    if upto > 0 {
        lemma_rescaled_once(values, rows, draws, threshold, fact, upto - 1);
        let before = rescaled(values, rows, draws, threshold, fact, upto - 1);
        let after = rescaled(values, rows, draws, threshold, fact, upto);
        let row = rows[upto - 1] as int;
        let prefix = rows.take(upto - 1);
        assert(!prefix.contains(row as usize)) by {
            if prefix.contains(row as usize) {
                let q = choose|q: int| 0 <= q < prefix.len() && prefix[q] == row as usize;
                assert(rows[q] == rows[upto - 1]);
            }
        }
        assert(before[row] == values[row]);
        assert forall|q: int| 0 <= q < upto implies after[#[trigger] rows[q] as int] == if draws[q]
            < threshold {
            values[rows[q] as int].mul_spec(fact)
        } else {
            values[rows[q] as int]
        } by {
            if q < upto - 1 {
                assert(rows[q] != rows[upto - 1]);
            }
        }
        assert forall|r: int|
            0 <= r < values.len() && !rows.take(upto).contains(r as usize) implies #[trigger] after[r]
            == values[r] by {
            assert(rows.take(upto)[upto - 1] == rows[upto - 1]);
            if prefix.contains(r as usize) {
                let q = choose|q: int| 0 <= q < prefix.len() && prefix[q] == r as usize;
                assert(rows.take(upto)[q] == r as usize);
            }
        }
    }
}

/// Where no row stands twice in `index`, a sample of `GossSampler` leaves
/// the gradient and the hessian of the first `goss_top_n` rows of the
/// ranking as they were, and multiplies those of each row behind them by
/// `goss_factor` once where the row was kept at random, and not at all where
/// it was not.
pub proof fn lemma_goss_rescales_once<T: FloatData>(
    a: T,
    b: T,
    index: Seq<usize>,
    grad: Seq<T>,
    hess: Seq<T>,
    draws: Seq<u64>,
    r: Result<(Vec<usize>, Vec<usize>), ForustError>,
    grad_after: Seq<T>,
    hess_after: Seq<T>,
)
    requires
        index.len() <= usize::MAX,
        index.no_duplicates(),
        grad.len() == hess.len(),
        rows_in_range(index, grad.len()),
        is_goss_sample(a, b, index, grad, hess, draws, r, grad_after, hess_after),
        r is Ok,
    ensures
        ({
            let n = index.len() as usize;
            let top_n = goss_top_n(a, n) as int;
            let rand_n = goss_rand_n(b, n) as int;
            let fact = goss_factor(a, b);
            let ranked = ranked_rows(index, grad);
            &&& forall|p: int|
                0 <= p < top_n ==> grad_after[#[trigger] ranked[p] as int] == grad[ranked[p] as int]
                    && hess_after[ranked[p] as int] == hess[ranked[p] as int]
            &&& forall|p: int|
                top_n <= p < n && draws[p - top_n] < rand_n ==> grad_after[#[trigger] ranked[p] as int]
                    == grad[ranked[p] as int].mul_spec(fact) && hess_after[ranked[p] as int]
                    == hess[ranked[p] as int].mul_spec(fact)
            &&& forall|p: int|
                top_n <= p < n && draws[p - top_n] >= rand_n ==> grad_after[#[trigger] ranked[p] as int]
                    == grad[ranked[p] as int] && hess_after[ranked[p] as int] == hess[ranked[p] as int]
        }),
{
    let n = index.len() as usize;
    let top_n = goss_top_n(a, n) as int;
    let rand_n = goss_rand_n(b, n) as int;
    let fact = goss_factor(a, b);
    let ranked = ranked_rows(index, grad);
    let others = ranked.skip(top_n);
    let pool = n - top_n;
    lemma_ranked_rows(index, grad);
    assert forall|q: int| 0 <= q < others.len() implies #[trigger] others[q] < grad.len() by {
        assert(index.contains(ranked[top_n + q]));
        let k = choose|k: int| 0 <= k < index.len() && index[k] == ranked[top_n + q];
        assert(index[k] < grad.len());
    }
    assert(others.no_duplicates()) by {
        assert forall|x: int, y: int| 0 <= x < others.len() && 0 <= y < others.len() && x != y implies others[x]
            != others[y] by {
            assert(ranked[top_n + x] != ranked[top_n + y]);
        }
    }
    lemma_rescaled_once(grad, others, draws, rand_n, fact, pool);
    lemma_rescaled_once(hess, others, draws, rand_n, fact, pool);
    assert(others.take(pool) == others);
    assert forall|p: int| 0 <= p < top_n implies grad_after[#[trigger] ranked[p] as int] == grad[ranked[p] as int]
        && hess_after[ranked[p] as int] == hess[ranked[p] as int] by {
        assert(index.contains(ranked[p]));
        let k = choose|k: int| 0 <= k < index.len() && index[k] == ranked[p];
        assert(index[k] < grad.len());
        if others.contains(ranked[p]) {
            let q = choose|q: int| 0 <= q < others.len() && others[q] == ranked[p];
            assert(ranked[top_n + q] == ranked[p]);
        }
    }
    assert forall|p: int| top_n <= p < n implies #[trigger] ranked[p] == others[p - top_n] by {}
}

impl<T: FloatData> GossSampler<T> {
    /// The share of the rows that is kept for their gradient.
    pub closed spec fn top_rate(&self) -> T {
        self.a
    }

    /// The share of the rows that is kept at random.
    pub closed spec fn other_rate(&self) -> T {
        self.b
    }

    /// A sampler with the top rate `a` and the other rate `b`. Each must lie
    /// between zero and one; else the error names the first that does not.
    pub fn new(a: T, b: T) -> (r: Result<Self, ForustError>)
        ensures
            is_rate(a) && is_rate(b) ==> {
                &&& r matches Ok(s)
                &&& s.top_rate() == a
                &&& s.other_rate() == b
            },
            !is_rate(a) ==> {
                &&& r matches Err(ForustError::InvalidParameter(name))
                &&& name@ == "a"@
            },
            is_rate(a) && !is_rate(b) ==> {
                &&& r matches Err(ForustError::InvalidParameter(name))
                &&& name@ == "b"@
            },
    {
        if !(T::ZERO.le(a) && a.le(T::ONE)) {
            Err(ForustError::InvalidParameter("a".to_owned()))
        } else if !(T::ZERO.le(b) && b.le(T::ONE)) {
            Err(ForustError::InvalidParameter("b".to_owned()))
        } else {
            Ok(GossSampler { a, b })
        }
    }
}

impl<T: FloatData> Default for GossSampler<T> {
    /// The top rate 2/10 and the other rate 1/10.
    fn default() -> (r: Self)
        ensures
            r.top_rate() == T::from_u16_spec(2).div_spec(T::from_u16_spec(10)),
            r.other_rate() == T::from_u16_spec(1).div_spec(T::from_u16_spec(10)),
    {
        let ten: T = T::from_u16(10);
        GossSampler { a: T::from_u16(2).div(ten), b: T::from_u16(1).div(ten) }
    }
}

/// The rows of `index` from the largest absolute gradient to the smallest.
pub fn rank_rows<T: FloatData>(index: &[usize], grad: &[T]) -> (ranked: Vec<usize>)
    requires
        rows_in_range(index@, grad@.len()),
    ensures
        ranked@ == ranked_rows(index@, grad@),
        forall|p: int| 0 <= p < ranked@.len() ==> index@.contains(#[trigger] ranked@[p]),
{
    let n: usize = index.len();
    let mut keys: Vec<T> = Vec::new();
    let mut k: usize = 0;
    while k < n
        invariant
            n == index@.len(),
            rows_in_range(index@, grad@.len()),
            k <= n,
            keys@.len() == k,
            forall|i: int| 0 <= i < k ==> #[trigger] keys@[i] == magnitudes(index@, grad@)[i],
        decreases n - k,
    {
        keys.push(grad[index[k]].abs());
        k = k + 1;
    }
    proof {
        assert(keys@ =~= magnitudes(index@, grad@));
    }
    let ascending = sort_indices(keys.as_slice());
    let mut ranked: Vec<usize> = Vec::new();
    let mut p: usize = 0;
    while p < n
        invariant
            n == index@.len(),
            keys@.len() == n,
            keys@ == magnitudes(index@, grad@),
            ascending@ == sorted_order(keys@),
            is_stable_order(keys@, 0, n as int, ascending@),
            p <= n,
            ranked@.len() == p,
            forall|i: int| 0 <= i < p ==> #[trigger] ranked@[i] == ranked_rows(index@, grad@)[i],
            forall|i: int| 0 <= i < p ==> index@.contains(#[trigger] ranked@[i]),
        decreases n - p,
    {
        let row: usize = index[ascending[n - 1 - p]];
        ranked.push(row);
        p = p + 1;
    }
    proof {
        assert(ranked@ =~= ranked_rows(index@, grad@));
    }
    ranked
}

/// The numbers of rows, out of `n`, that GOSS keeps for their gradient and
/// expects to keep at random.
pub fn goss_counts<T: FloatData>(a: T, b: T, n: usize) -> (r: (usize, usize))
    ensures
        r.0 == goss_top_n(a, n),
        r.1 == goss_rand_n(b, n),
{
    let top: usize = a.mul(T::from_usize(n)).to_usize();
    let rand_n: usize = b.mul(T::from_usize(n)).to_usize();
    if top > n {
        (n, rand_n)
    } else {
        (top, rand_n)
    }
}

/// The GOSS sample for given draws: what `GossSampler::sample` does once
/// the draws are there. The rows are ranked by their absolute gradient, the
/// first `goss_top_n` are chosen, and each of the others, in the order of
/// the ranking, takes its draw from `draws`: it is chosen where the draw is
/// below `goss_rand_n`, and then its gradient and hessian are multiplied by
/// `goss_factor`. The call fails where no row is left behind the first
/// `goss_top_n`.
pub fn goss_partition<T: FloatData>(
    a: T,
    b: T,
    index: &[usize],
    grad: &mut [T],
    hess: &mut [T],
    draws: &[u64],
) -> (r: Result<(Vec<usize>, Vec<usize>), ForustError>)
    requires
        old(grad)@.len() == old(hess)@.len(),
        rows_in_range(index@, old(grad)@.len()),
        draws@.len() == index@.len() - goss_top_n(a, index@.len() as usize),
        forall|i: int| 0 <= i < draws@.len() ==> #[trigger] draws@[i] < draws@.len(),
    ensures
        final(grad)@.len() == old(grad)@.len(),
        final(hess)@.len() == old(hess)@.len(),
        r is Err <==> index@.len() - goss_top_n(a, index@.len() as usize) == 0,
        is_goss_sample(a, b, index@, old(grad)@, old(hess)@, draws@, r, final(grad)@, final(hess)@),
        r matches Ok(parts) ==> drawn_from(index@, parts.0@, parts.1@),
{
    let n: usize = index.len();
    let (top_n, rand_n) = goss_counts(a, b, n);
    let pool: usize = n - top_n;
    if pool == 0 {
        return Err(ForustError::DegenerateSampling);
    }
    let fact: T = T::ONE.sub(a).div(b);
    let ranked = rank_rows(index, grad);
    let mut chosen: Vec<usize> = Vec::new();
    let mut others: Vec<usize> = Vec::new();
    let mut p: usize = 0;
    while p < n
        invariant
            n == ranked@.len(),
            top_n <= n,
            p <= n,
            chosen@ == ranked@.take(if p < top_n { p as int } else { top_n as int }),
            others@ == ranked@.subrange(top_n as int, if p < top_n { top_n as int } else { p as int }),
        decreases n - p,
    {
        if p < top_n {
            chosen.push(ranked[p]);
            proof {
                assert(chosen@ =~= ranked@.take(p + 1));
                assert(others@ =~= ranked@.subrange(top_n as int, top_n as int));
            }
        } else {
            others.push(ranked[p]);
            proof {
                assert(others@ =~= ranked@.subrange(top_n as int, p + 1));
            }
        }
        p = p + 1;
    }
    proof {
        assert(others@ =~= ranked@.skip(top_n as int));
    }
    let (retained, _) = split_rows(others.as_slice(), draws, rand_n as u64);
    let ghost top = chosen@;
    let mut q: usize = 0;
    while q < retained.len()
        invariant
            q <= retained@.len(),
            chosen@ == top + retained@.take(q as int),
        decreases retained@.len() - q,
    {
        chosen.push(retained[q]);
        proof {
            assert(chosen@ =~= top + retained@.take(q + 1));
        }
        q = q + 1;
    }
    proof {
        assert(retained@.take(retained@.len() as int) == retained@);
        lemma_split_rows(others@, draws@, rand_n as int);
        assert forall|i: int| 0 <= i < chosen@.len() implies index@.contains(
            #[trigger] chosen@[i],
        ) by {
            if i < top.len() {
                assert(chosen@[i] == ranked@[i]);
            } else {
                assert(chosen@[i] == retained@[i - top.len()]);
                assert(others@.contains(retained@[i - top.len()]));
                let k = choose|k: int| 0 <= k < others@.len() && others@[k] == chosen@[i];
                assert(others@[k] == ranked@[top_n + k]);
            }
        }
    }
    let mut t: usize = 0;
    while t < pool
        invariant
            pool == others@.len(),
            pool == draws@.len(),
            t <= pool,
            grad@.len() == old(grad)@.len(),
            hess@.len() == old(hess)@.len(),
            old(grad)@.len() == old(hess)@.len(),
            forall|k: int| 0 <= k < pool ==> #[trigger] others@[k] < old(grad)@.len(),
            grad@ == rescaled(old(grad)@, others@, draws@, rand_n as int, fact, t as int),
            hess@ == rescaled(old(hess)@, others@, draws@, rand_n as int, fact, t as int),
        decreases pool - t,
    {
        if draws[t] < rand_n as u64 {
            let row: usize = others[t];
            grad[row] = grad[row].mul(fact);
            hess[row] = hess[row].mul(fact);
        }
        t = t + 1;
    }
    let r = Ok((chosen, Vec::new()));
    proof {
        assert(is_goss_sample(
            a,
            b,
            index@,
            old(grad)@,
            old(hess)@,
            draws@,
            r,
            grad@,
            hess@,
        ));
    }
    r
}

impl<T: FloatData> Sampler<T> for GossSampler<T> {
    /// Draws once for each row behind the first `goss_top_n` of the ranking,
    /// out of as many values as there are such rows, and hands the draws to
    /// `goss_partition`; `is_goss_sample` says what comes of them. The call
    /// fails, and draws nothing, where no row is left behind the first
    /// `goss_top_n`.
    fn sample(
        &mut self,
        rng: &mut StdRng,
        index: &[usize],
        grad: &mut [T],
        hess: &mut [T],
    ) -> (r: Result<(Vec<usize>, Vec<usize>), ForustError>)
        ensures
            final(self).top_rate() == old(self).top_rate(),
            final(self).other_rate() == old(self).other_rate(),
            r is Err <==> index@.len() - goss_top_n(old(self).top_rate(), index@.len() as usize) == 0,
            exists|draws: Seq<u64>| #[trigger]
                is_goss_sample(
                    old(self).top_rate(),
                    old(self).other_rate(),
                    index@,
                    old(grad)@,
                    old(hess)@,
                    draws,
                    r,
                    final(grad)@,
                    final(hess)@,
                ),
    {
        let n: usize = index.len();
        let (top_n, _) = goss_counts(self.a, self.b, n);
        let pool: usize = n - top_n;
        let draws: Vec<u64> = if pool == 0 {
            Vec::new()
        } else {
            draw_many(rng, pool, pool as u64)
        };
        let r = goss_partition(self.a, self.b, index, grad, hess, draws.as_slice());
        proof {
            assert(is_goss_sample(
                old(self).top_rate(),
                old(self).other_rate(),
                index@,
                old(grad)@,
                old(hess)@,
                draws@,
                r,
                grad@,
                hess@,
            ));
        }
        r
    }
}

/// What `sample_rows` returns and leaves in the buffers when the draws come
/// out as `draws`.
///
/// Without sampling every row of `index` is chosen, in its order, none is
/// excluded, and nothing is drawn or changed. `Random` is the sample of a
/// `RandomSampler` at the rate `subsample`. `Goss` is the sample of a
/// `GossSampler` with the rates `a` and `b`, and fails without a change
/// where one of the rates does not lie between zero and one.
pub open spec fn is_row_sample<T: FloatData>(
    method: SampleMethod,
    subsample: T,
    a: T,
    b: T,
    index: Seq<usize>,
    grad: Seq<T>,
    hess: Seq<T>,
    draws: Seq<u64>,
    r: Result<(Vec<usize>, Vec<usize>), ForustError>,
    grad_after: Seq<T>,
    hess_after: Seq<T>,
) -> bool {
    match method {
        SampleMethod::NoSampling => {
            &&& r matches Ok(parts)
            &&& parts.0@ == index
            &&& parts.1@.len() == 0
            &&& grad_after == grad
            &&& hess_after == hess
        },
        SampleMethod::Random => {
            &&& is_random_sample(index, draws, random_threshold(subsample) as int, r)
            &&& grad_after == grad
            &&& hess_after == hess
        },
        SampleMethod::Goss => if is_rate(a) && is_rate(b) {
            is_goss_sample(a, b, index, grad, hess, draws, r, grad_after, hess_after)
        } else {
            &&& r matches Err(e)
            &&& e is InvalidParameter
            &&& grad_after == grad
            &&& hess_after == hess
        },
    }
}

/// Picks the rows for the next tree by the method that was configured: the
/// rows chosen for training, then the rows left out.
pub fn sample_rows<T: FloatData>(
    method: SampleMethod,
    subsample: T,
    a: T,
    b: T,
    rng: &mut StdRng,
    index: &[usize],
    grad: &mut [T],
    hess: &mut [T],
) -> (r: Result<(Vec<usize>, Vec<usize>), ForustError>)
    requires
        old(grad)@.len() == old(hess)@.len(),
        rows_in_range(index@, old(grad)@.len()),
    ensures
        final(grad)@.len() == old(grad)@.len(),
        final(hess)@.len() == old(hess)@.len(),
        r matches Ok(parts) ==> drawn_from(index@, parts.0@, parts.1@),
        method is NoSampling ==> {
            &&& r matches Ok(parts)
            &&& parts.0@ == index@
            &&& parts.1@.len() == 0
            &&& final(grad)@ == old(grad)@
            &&& final(hess)@ == old(hess)@
        },
        r is Ok <==> (method is Goss ==> is_rate(a) && is_rate(b) && index@.len() - goss_top_n(
            a,
            index@.len() as usize,
        ) > 0),
        exists|draws: Seq<u64>| #[trigger]
            is_row_sample(
                method,
                subsample,
                a,
                b,
                index@,
                old(grad)@,
                old(hess)@,
                draws,
                r,
                final(grad)@,
                final(hess)@,
            ),
{
    match method {
        SampleMethod::NoSampling => {
            let chosen: Vec<usize> = vstd::slice::slice_to_vec(index);
            let r = Ok((chosen, Vec::new()));
            proof {
                assert forall|i: int| 0 <= i < index@.len() implies index@.contains(
                    #[trigger] index@[i],
                ) by {}
                assert(is_row_sample(
                    method,
                    subsample,
                    a,
                    b,
                    index@,
                    old(grad)@,
                    old(hess)@,
                    Seq::<u64>::empty(),
                    r,
                    grad@,
                    hess@,
                ));
            }
            r
        },
        SampleMethod::Random => {
            let mut sampler = RandomSampler::new(subsample);
            let r = sampler.sample(rng, index, grad, hess);
            proof {
                let draws = choose|draws: Seq<u64>| #[trigger]
                    is_random_sample(index@, draws, random_threshold(subsample) as int, r);
                assert(is_row_sample(
                    method,
                    subsample,
                    a,
                    b,
                    index@,
                    old(grad)@,
                    old(hess)@,
                    draws,
                    r,
                    grad@,
                    hess@,
                ));
            }
            r
        },
        SampleMethod::Goss => {
            match GossSampler::new(a, b) {
                Ok(mut sampler) => {
                    let r = sampler.sample(rng, index, grad, hess);
                    proof {
                        let draws = choose|draws: Seq<u64>| #[trigger]
                            is_goss_sample(
                                a,
                                b,
                                index@,
                                old(grad)@,
                                old(hess)@,
                                draws,
                                r,
                                grad@,
                                hess@,
                            );
                        assert(is_row_sample(
                            method,
                            subsample,
                            a,
                            b,
                            index@,
                            old(grad)@,
                            old(hess)@,
                            draws,
                            r,
                            grad@,
                            hess@,
                        ));
                    }
                    r
                },
                Err(e) => {
                    let r = Err(e);
                    proof {
                        assert(is_row_sample(
                            method,
                            subsample,
                            a,
                            b,
                            index@,
                            old(grad)@,
                            old(hess)@,
                            Seq::<u64>::empty(),
                            r,
                            grad@,
                            hess@,
                        ));
                    }
                    r
                },
            }
        },
    }
}

} // verus!
