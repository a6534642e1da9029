use forust::binning::{
    bin_matrix, bin_matrix_from_cuts, percentiles_or_value, present_rows, BinnedData, MAX_BINS,
};
use forust::data::{is_finite, FloatData, Matrix, MatrixData};
use forust::errors::ForustError;
use forust::objective::{
    gradient_hessian_callables, sigmoid, LogLoss, ObjFn, ObjectiveFunction, ObjectiveType,
    SquaredLoss,
};
use forust::order::{dedup_values, sort_indices, sorted_copy, total_le_exec};
use forust::sampler::{
    draw_many, goss_counts, goss_partition, rank_rows, sample_rows, split_rows, GossSampler,
    RandomSampler, SampleMethod, Sampler, DRAW_RESOLUTION,
};
use forust::utils::{
    first_greater_than, is_reached, items_to_strings, map_bin, percentile_walk, percentiles,
    percentiles_nunique, sum_weights,
};
use rand::rngs::StdRng;
use rand::SeedableRng;
use std::str::FromStr;

/// A 64-bit float as the library's numeric type.
#[derive(Clone, Copy, Debug, PartialEq, PartialOrd)]
struct F(f64);

impl MatrixData for F {
    // The model that the contracts speak of; it is never run.
    fn is_nan_spec(self) -> bool {
        unreachable!()
    }
    fn rank(self) -> i64 {
        unreachable!()
    }
    fn from_u16_spec(_: u16) -> Self {
        unreachable!()
    }
    fn from_usize_spec(_: usize) -> Self {
        unreachable!()
    }
    fn add_spec(self, _: Self) -> Self {
        unreachable!()
    }
    fn sub_spec(self, _: Self) -> Self {
        unreachable!()
    }
    fn mul_spec(self, _: Self) -> Self {
        unreachable!()
    }
    fn div_spec(self, _: Self) -> Self {
        unreachable!()
    }

    const ZERO: Self = F(0.0);
    const ONE: Self = F(1.0);
    const MIN: Self = F(f64::MIN);
    const MAX: Self = F(f64::MAX);
    fn from_u16(v: u16) -> Self {
        F(v as f64)
    }
    fn from_usize(v: usize) -> Self {
        F(v as f64)
    }
    fn is_nan(self) -> bool {
        self.0.is_nan()
    }
    fn eq(self, other: Self) -> bool {
        self.0 == other.0
    }
    fn lt(self, other: Self) -> bool {
        self.0 < other.0
    }
    fn le(self, other: Self) -> bool {
        self.0 <= other.0
    }
    fn add(self, rhs: Self) -> Self {
        F(self.0 + rhs.0)
    }
    fn sub(self, rhs: Self) -> Self {
        F(self.0 - rhs.0)
    }
    fn mul(self, rhs: Self) -> Self {
        F(self.0 * rhs.0)
    }
    fn div(self, rhs: Self) -> Self {
        F(self.0 / rhs.0)
    }
}

impl FloatData for F {
    fn neg_spec(self) -> Self {
        unreachable!()
    }
    fn abs_spec(self) -> Self {
        unreachable!()
    }
    fn exp_spec(self) -> Self {
        unreachable!()
    }
    fn ln_spec(self) -> Self {
        unreachable!()
    }
    fn to_usize_spec(self) -> usize {
        unreachable!()
    }

    fn neg(self) -> Self {
        F(-self.0)
    }
    fn abs(self) -> Self {
        F(self.0.abs())
    }
    fn exp(self) -> Self {
        F(self.0.exp())
    }
    fn ln(self) -> Self {
        F(self.0.ln())
    }
    fn to_usize(self) -> usize {
        self.0 as usize
    }
}

fn wrap(values: &[f64]) -> Vec<F> {
    values.iter().map(|x| F(*x)).collect()
}

fn total(values: &[F]) -> f64 {
    values.iter().map(|x| x.0).sum::<f64>()
}

fn binned(data: &[f64], rows: usize, cols: usize, nbins: u16) -> Result<BinnedData<F>, ForustError> {
    let values = wrap(data);
    let weights = vec![F(1.0); rows];
    let matrix = Matrix::new(&values, rows, cols);
    bin_matrix(&matrix, &weights, nbins)
}

// ---- percentiles and searches ----

#[test]
fn test_percentiles_nunique() {
    let v = wrap(&[1., 2., 3., 4., 5., 6., 7., 8., 9., 10.]);
    let w = vec![F(1.); v.len()];
    let p = wrap(&[0.3, 0.5, 0.75]);
    let (p, n) = percentiles_nunique(&v, &w, &p);
    assert_eq!(n, 10);
    assert_eq!(p, wrap(&[3.0, 5.0, 8.0]));
}

#[test]
fn test_first_greater_than_or_equal() {
    let v = wrap(&[1., 4., 8., 9.]);
    assert_eq!(0, first_greater_than(&v, &F(0.)));
    assert_eq!(1, first_greater_than(&v, &F(1.)));
    // Less than the bin value of 1, means the value is less
    // than 4...
    assert_eq!(1, first_greater_than(&v, &F(2.)));
    assert_eq!(2, first_greater_than(&v, &F(4.)));
    assert_eq!(4, first_greater_than(&v, &F(9.)));
    assert_eq!(4, first_greater_than(&v, &F(10.)));
    assert_eq!(1, first_greater_than(&v, &F(1.)));
    assert_eq!(0, first_greater_than(&v, &F(f64::NAN)));
}

#[test]
fn first_greater_than_counts_the_items_at_most_the_value() {
    let v = wrap(&[2., 2., 5., 7.]);
    assert_eq!(0, first_greater_than(&v, &F(1.)));
    assert_eq!(2, first_greater_than(&v, &F(2.)));
    assert_eq!(2, first_greater_than(&v, &F(4.)));
    assert_eq!(4, first_greater_than(&v, &F(7.)));
    assert_eq!(4, first_greater_than(&v, &F(f64::INFINITY)));
    assert_eq!(0, first_greater_than(&v, &F(f64::NEG_INFINITY)));
    let empty: Vec<F> = Vec::new();
    assert_eq!(0, first_greater_than(&empty, &F(3.)));
}

#[test]
fn first_greater_than_gives_zero_for_a_value_that_is_not_a_number() {
    let unsorted = wrap(&[9., 1., f64::NAN, 4., 8., 0., 3.]);
    assert_eq!(0, first_greater_than(&unsorted, &F(f64::NAN)));
    let long: Vec<F> = (0..1000).map(|i| F(i as f64)).collect();
    assert_eq!(0, first_greater_than(&long, &F(f64::NAN)));
}

#[test]
fn percentiles_zero_fraction_takes_the_smallest_value() {
    let v = wrap(&[5., 1., 3.]);
    let w = vec![F(1.); 3];
    let (p, n) = percentiles_nunique(&v, &w, &wrap(&[0.0, 0.5]));
    assert_eq!(p, wrap(&[1.0, 3.0]));
    assert_eq!(n, 3);
}

#[test]
fn percentiles_follow_the_weights() {
    let v = wrap(&[10., 20., 30.]);
    let w = wrap(&[1., 1., 8.]);
    assert_eq!(percentiles(&v, &w, &wrap(&[0.5])), wrap(&[30.0]));
    let w = wrap(&[8., 1., 1.]);
    assert_eq!(percentiles(&v, &w, &wrap(&[0.5])), wrap(&[10.0]));
}

#[test]
fn percentiles_give_one_boundary_for_each_fraction() {
    let v = wrap(&[1., 2.]);
    let w = vec![F(1.); 2];
    let (p, n) = percentiles_nunique(&v, &w, &wrap(&[0.1, 0.2, 0.3]));
    assert_eq!(p, wrap(&[1.0, 1.0, 1.0]));
    assert_eq!(n, 2);
    let (p, _) = percentiles_nunique(&v, &w, &wrap(&[0.1, 0.2, 0.6, 1.0]));
    assert_eq!(p, wrap(&[1.0, 1.0, 2.0, 2.0]));
    let one = wrap(&[7.]);
    let (p, _) = percentiles_nunique(&one, &[F(3.)], &wrap(&[0.0, 0.5, 1.0]));
    assert_eq!(p, wrap(&[7.0, 7.0, 7.0]));
}

#[test]
fn percentiles_take_the_smallest_value_that_reaches_each_fraction() {
    // The first row holds 10 of 16 parts of the weight.
    let v = wrap(&[1., 2., 3., 4., 5., 6., 7.]);
    let w = wrap(&[10., 1., 1., 1., 1., 1., 1.]);
    let p = percentiles(&v, &w, &wrap(&[0.0, 0.25, 0.5, 0.75]));
    assert_eq!(p, wrap(&[1.0, 1.0, 1.0, 3.0]));
}

#[test]
fn percentiles_stop_at_a_fraction_that_no_row_reaches() {
    let v = wrap(&[1., 2.]);
    let w = vec![F(1.); 2];
    let p = percentiles(&v, &w, &wrap(&[0.5, 1.5, 0.1]));
    assert_eq!(p, wrap(&[1.0]));
}

#[test]
fn is_reached_by_zero_or_by_the_mass() {
    assert!(is_reached(F(0.0), F(0.0)));
    assert!(is_reached(F(-0.0), F(-1.0)));
    assert!(is_reached(F(0.5), F(0.5)));
    assert!(is_reached(F(0.5), F(0.75)));
    assert!(!is_reached(F(0.5), F(0.25)));
    assert!(!is_reached(F(f64::NAN), F(1.0)));
    assert!(!is_reached(F(0.5), F(f64::NAN)));
}

#[test]
fn percentiles_count_repeated_values_once() {
    let v = wrap(&[2., 2., 2., 1.]);
    let w = vec![F(1.); 4];
    let (p, n) = percentiles_nunique(&v, &w, &wrap(&[0.5]));
    assert_eq!(p, wrap(&[2.0]));
    assert_eq!(n, 2);
}

#[test]
fn percentiles_of_no_rows() {
    let v: Vec<F> = Vec::new();
    let w: Vec<F> = Vec::new();
    let (p, n) = percentiles_nunique(&v, &w, &wrap(&[0.5]));
    assert!(p.is_empty());
    assert_eq!(n, 0);
}

#[test]
fn percentiles_put_values_that_are_not_numbers_last() {
    let v = wrap(&[f64::NAN, 1.0]);
    let w = vec![F(1.); 2];
    let (p, n) = percentiles_nunique(&v, &w, &wrap(&[0.25, 0.9]));
    assert_eq!(p.len(), 2);
    assert_eq!(p[0], F(1.0));
    assert!(p[1].0.is_nan());
    assert_eq!(n, 2);
}

#[test]
fn percentile_is_the_smallest_value_that_reaches_the_fraction() {
    // Eighths add up without rounding.
    let v = wrap(&[8., 3., 5., 1., 7., 2., 6., 4.]);
    let w = vec![F(1.); 8];
    let cases = [(0.125, 1.), (0.25, 2.), (0.3, 3.), (0.5, 4.), (0.75, 6.), (0.99, 8.), (1.0, 8.)];
    for (fraction, expected) in cases {
        assert_eq!(percentiles(&v, &w, &wrap(&[fraction])), wrap(&[expected]));
        let count = v.iter().filter(|x| x.0 <= expected).count() as f64;
        assert!(count / 8.0 >= fraction);
        assert!((count - 1.0) / 8.0 < fraction);
    }
}

#[test]
fn percentiles_add_the_shares_up_as_the_type_does() {
    // Eight tenths, added one by one, stay below 0.8 in 64-bit floats.
    let v = wrap(&[1., 2., 3., 4., 5., 6., 7., 8., 9., 10.]);
    let w = vec![F(1.); 10];
    assert_eq!(percentiles(&v, &w, &wrap(&[0.8])), wrap(&[9.0]));
    assert_eq!(percentiles(&v, &w, &wrap(&[0.7])), wrap(&[7.0]));
}

#[test]
fn sum_weights_adds_from_the_front() {
    assert_eq!(sum_weights(&wrap(&[1.5, 2.0, 4.0])), F(7.5));
    assert_eq!(sum_weights(&wrap(&[])), F(0.0));
}

#[test]
fn sort_indices_is_stable_and_puts_nan_last() {
    let v = wrap(&[3., f64::NAN, 1., 3., 2., 1.]);
    assert_eq!(sort_indices(&v), vec![2, 5, 4, 0, 3, 1]);
    let sorted = sorted_copy(&wrap(&[3., 1., 2., 1.]));
    assert_eq!(sorted, wrap(&[1., 1., 2., 3.]));
    assert_eq!(dedup_values(&sorted), wrap(&[1., 2., 3.]));
    assert_eq!(sort_indices(&wrap(&[])), Vec::<usize>::new());
}

#[test]
fn total_order_puts_values_that_are_not_numbers_last() {
    assert!(total_le_exec(F(1.0), F(2.0)));
    assert!(total_le_exec(F(2.0), F(2.0)));
    assert!(!total_le_exec(F(3.0), F(2.0)));
    assert!(total_le_exec(F(f64::INFINITY), F(f64::NAN)));
    assert!(total_le_exec(F(f64::NAN), F(f64::NAN)));
    assert!(!total_le_exec(F(f64::NAN), F(f64::INFINITY)));
    assert!(total_le_exec(F(-0.0), F(0.0)));
    assert!(total_le_exec(F(0.0), F(-0.0)));
}

#[test]
fn percentile_walk_works_without_fractions() {
    let v = wrap(&[2., 1., 2.]);
    let w = vec![F(1.); 3];
    let (p, n) = percentile_walk(&v, &w, &[]);
    assert!(p.is_empty());
    assert_eq!(n, 2);
}

#[test]
fn sort_indices_sorts_a_long_column() {
    let n = 1000usize;
    let v: Vec<F> = (0..n).map(|i| F(((i * 7919) % 1000) as f64)).collect();
    let order = sort_indices(&v);
    assert_eq!(order.len(), n);
    let mut seen = vec![false; n];
    for k in 0..n {
        assert!(!seen[order[k]]);
        seen[order[k]] = true;
        if k > 0 {
            assert!(v[order[k - 1]].0 <= v[order[k]].0);
        }
    }
}

#[test]
fn map_bin_counts_the_boundaries_below() {
    let cuts = wrap(&[1., 4., 8., 9., f64::MAX]);
    assert_eq!(map_bin(&cuts, F(0.)), Some(1));
    assert_eq!(map_bin(&cuts, F(1.)), Some(1));
    assert_eq!(map_bin(&cuts, F(2.)), Some(2));
    assert_eq!(map_bin(&cuts, F(4.)), Some(2));
    assert_eq!(map_bin(&cuts, F(9.)), Some(4));
    assert_eq!(map_bin(&cuts, F(10.)), Some(5));
    assert_eq!(map_bin(&cuts, F(f64::MAX)), Some(5));
    assert_eq!(map_bin(&cuts, F(f64::NAN)), Some(0));
    assert_eq!(map_bin(&cuts, F(f64::INFINITY)), Some(0));
    assert_eq!(map_bin(&cuts, F(f64::NEG_INFINITY)), Some(0));
}

#[test]
fn map_bin_gives_none_where_the_bin_does_not_fit() {
    let cuts: Vec<F> = (0..70000).map(|i| F(i as f64)).collect();
    assert_eq!(map_bin(&cuts, F(65533.5)), Some(65535));
    assert_eq!(map_bin(&cuts, F(65534.5)), None);
}

#[test]
fn items_to_strings_copies_each_item() {
    assert_eq!(
        items_to_strings(vec!["random", "goss"]),
        vec!["random".to_string(), "goss".to_string()]
    );
}

#[test]
fn is_finite_tells_missing_values() {
    assert!(is_finite(F(0.0)));
    assert!(is_finite(F(f64::MAX)));
    assert!(is_finite(F(f64::MIN)));
    assert!(!is_finite(F(f64::NAN)));
    assert!(!is_finite(F(f64::INFINITY)));
    assert!(!is_finite(F(f64::NEG_INFINITY)));
}

// ---- the matrix ----

#[test]
fn matrix_is_stored_by_column() {
    let values = wrap(&[1., 2., 3., 4., 5., 6.]);
    let m = Matrix::new(&values, 3, 2);
    assert_eq!(m.rows, 3);
    assert_eq!(m.cols, 2);
    assert_eq!(m.get(0, 0), F(1.));
    assert_eq!(m.get(2, 0), F(3.));
    assert_eq!(m.get(0, 1), F(4.));
    assert_eq!(m.get(2, 1), F(6.));
    assert_eq!(m.get_col(1), &wrap(&[4., 5., 6.])[..]);
}

// ---- binning ----

#[test]
fn few_distinct_values_are_the_cuts() {
    let b = binned(&[1., 2., 3., 4., 5.], 5, 1, 10).unwrap();
    assert_eq!(b.cuts, vec![wrap(&[1., 2., 3., 4., 5., f64::MAX])]);
    assert_eq!(b.binned_data, vec![1, 2, 3, 4, 5]);
    assert_eq!(b.nunique, vec![5]);
}

#[test]
fn missing_values_go_to_bin_zero() {
    let b = binned(&[1., f64::NAN, 3., f64::INFINITY, 2., 3.], 6, 1, 10).unwrap();
    assert_eq!(b.cuts, vec![wrap(&[1., 2., 3., f64::MAX])]);
    assert_eq!(b.binned_data, vec![1, 0, 3, 0, 2, 3]);
    assert_eq!(b.nunique, vec![3]);
}

#[test]
fn constant_column_has_no_variance() {
    let r = binned(&[7., 7., 7.], 3, 1, 10);
    assert!(matches!(r, Err(ForustError::NoVariance)));
    let r = binned(&[1., 2., 3., 7., 7., 7.], 3, 2, 10);
    assert!(matches!(r, Err(ForustError::NoVariance)));
    let r = binned(&[f64::NAN, f64::NAN], 2, 1, 10);
    assert!(matches!(r, Err(ForustError::NoVariance)));
    let r = binned(&[1., f64::MAX], 2, 1, 10);
    assert!(matches!(r, Err(ForustError::NoVariance)));
}

#[test]
fn many_values_are_cut_at_the_percentiles() {
    let b = binned(&[1., 2., 3., 4., 5., 6., 7., 8., 9., 10.], 10, 1, 2).unwrap();
    assert_eq!(b.cuts, vec![wrap(&[1., 5., f64::MAX])]);
    assert_eq!(b.binned_data, vec![1, 2, 2, 2, 2, 3, 3, 3, 3, 3]);
    assert_eq!(b.nunique, vec![10]);
}

#[test]
fn a_heavy_row_gives_several_fractions_their_boundary() {
    let values = wrap(&[1., 2., 3., 4., 5., 6., 7.]);
    let weights = wrap(&[10., 1., 1., 1., 1., 1., 1.]);
    let matrix = Matrix::new(&values, 7, 1);
    let b = bin_matrix(&matrix, &weights, 4).unwrap();
    assert_eq!(b.cuts, vec![wrap(&[1., 3., f64::MAX])]);
    assert_eq!(b.binned_data, vec![1, 2, 2, 3, 3, 3, 3]);
    assert_eq!(b.nunique, vec![7]);
}

#[test]
fn the_largest_number_of_bins_is_accepted() {
    assert_eq!(MAX_BINS, 65534);
    let b = binned(&[1., 2., 3.], 3, 1, MAX_BINS).unwrap();
    assert_eq!(b.cuts, vec![wrap(&[1., 2., 3., f64::MAX])]);
    assert_eq!(b.binned_data, vec![1, 2, 3]);
}

#[test]
fn columns_are_binned_one_by_one() {
    let b = binned(&[1., 2., 3., 30., 10., 20.], 3, 2, 5).unwrap();
    assert_eq!(b.cuts, vec![wrap(&[1., 2., 3., f64::MAX]), wrap(&[10., 20., 30., f64::MAX])]);
    assert_eq!(b.binned_data, vec![1, 2, 3, 3, 1, 2]);
    assert_eq!(b.nunique, vec![3, 3]);
}

#[test]
fn weights_of_missing_rows_are_left_out() {
    // Without the missing row the weights are 1, 1, 1, 1, 6 on 1..5: half
    // of the weight is reached at the last value only.
    let values = wrap(&[f64::NAN, 1., 2., 3., 4., 5.]);
    let weights = wrap(&[100., 1., 1., 1., 1., 6.]);
    let matrix = Matrix::new(&values, 6, 1);
    let b = bin_matrix(&matrix, &weights, 2).unwrap();
    assert_eq!(b.cuts, vec![wrap(&[1., 5., f64::MAX])]);
    assert_eq!(b.binned_data, vec![0, 1, 2, 2, 2, 2]);
}

#[test]
fn binning_twice_gives_the_same() {
    let data: Vec<f64> = (0..400).map(|i| ((i * 37) % 101) as f64 / 7.0).collect();
    let first = binned(&data, 200, 2, 16).unwrap();
    let second = binned(&data, 200, 2, 16).unwrap();
    assert_eq!(first.cuts, second.cuts);
    assert_eq!(first.binned_data, second.binned_data);
    assert_eq!(first.nunique, second.nunique);
}

#[test]
fn every_row_lies_in_the_range_of_its_bin() {
    let rows = 300usize;
    let cols = 3usize;
    let mut data: Vec<f64> = (0..rows * cols).map(|i| ((i * 7919) % 613) as f64 / 3.0).collect();
    data[5] = f64::NAN;
    data[rows + 17] = f64::INFINITY;
    let b = binned(&data, rows, cols, 20).unwrap();
    for c in 0..cols {
        let cuts = &b.cuts[c];
        assert!(cuts.len() >= 3);
        assert_eq!(cuts[cuts.len() - 1], F(f64::MAX));
        for k in 1..cuts.len() {
            assert!(cuts[k - 1].0 < cuts[k].0);
        }
        for r in 0..rows {
            let value = data[c * rows + r];
            let bin = b.binned_data[c * rows + r] as usize;
            if bin == 0 {
                assert!(!value.is_finite());
            } else {
                assert!(value.is_finite());
                assert!(value <= cuts[bin - 1].0);
                if bin >= 2 {
                    assert!(cuts[bin - 2].0 < value);
                }
            }
        }
    }
}

#[test]
fn percentiles_or_value_takes_the_values_where_they_are_few() {
    let v = wrap(&[3., 1., 2., 3., 1.]);
    let w = vec![F(1.); 5];
    assert_eq!(percentiles_or_value(&v, &w, &wrap(&[0.0, 0.5])), wrap(&[1., 2., 3.]));
    let v = wrap(&[4., 1., 2., 3.]);
    let w = vec![F(1.); 4];
    assert_eq!(percentiles_or_value(&v, &w, &wrap(&[0.0, 0.5])), wrap(&[1., 2.]));
}

#[test]
fn present_rows_keeps_values_with_their_weights() {
    let (values, weights) =
        present_rows(&wrap(&[1., f64::NAN, 3., f64::NEG_INFINITY]), &wrap(&[10., 20., 30., 40.]));
    assert_eq!(values, wrap(&[1., 3.]));
    assert_eq!(weights, wrap(&[10., 30.]));
}

#[test]
fn bin_matrix_from_cuts_bins_under_given_cuts() {
    let values = wrap(&[0., 5., f64::NAN, 100., 1., 2.]);
    let matrix = Matrix::new(&values, 3, 2);
    let cuts = vec![wrap(&[1., 10., f64::MAX]), wrap(&[1., f64::MAX])];
    assert_eq!(bin_matrix_from_cuts(&matrix, &cuts), vec![1, 2, 0, 2, 1, 2]);
}

// ---- objectives ----

#[test]
fn test_logloss_loss() {
    let y = wrap(&[0.0, 0.0, 0.0, 1.0, 1.0, 1.0]);
    let yhat1 = wrap(&[-1.0, -1.0, -1.0, 1.0, 1.0, 1.0]);
    let w = vec![F(1.); y.len()];
    let l1 = LogLoss::calc_loss(&y, &yhat1, &w);
    let yhat2 = wrap(&[0.0, 0.0, -1.0, 1.0, 0.0, 1.0]);
    let l2 = LogLoss::calc_loss(&y, &yhat2, &w);
    assert!(total(&l1) < total(&l2));
}

#[test]
fn test_logloss_grad() {
    let y = wrap(&[0.0, 0.0, 0.0, 1.0, 1.0, 1.0]);
    let yhat1 = wrap(&[-1.0, -1.0, -1.0, 1.0, 1.0, 1.0]);
    let w = vec![F(1.); y.len()];
    let g1 = LogLoss::calc_grad(&y, &yhat1, &w);
    let yhat2 = wrap(&[0.0, 0.0, -1.0, 1.0, 0.0, 1.0]);
    let g2 = LogLoss::calc_grad(&y, &yhat2, &w);
    assert!(total(&g1) < total(&g2));
}

#[test]
fn test_logloss_hess() {
    let y = wrap(&[0.0, 0.0, 0.0, 1.0, 1.0, 1.0]);
    let yhat1 = wrap(&[-1.0, -1.0, -1.0, 1.0, 1.0, 1.0]);
    let w = vec![F(1.); y.len()];
    let h1 = LogLoss::calc_hess(&y, &yhat1, &w);
    let yhat2 = wrap(&[0.0, 0.0, -1.0, 1.0, 0.0, 1.0]);
    let h2 = LogLoss::calc_hess(&y, &yhat2, &w);
    assert!(total(&h1) < total(&h2));
}

#[test]
fn logloss_at_score_zero() {
    let y = wrap(&[1.0, 0.0]);
    let yhat = wrap(&[0.0, 0.0]);
    let w = wrap(&[1.0, 2.0]);
    assert_eq!(sigmoid(F(0.0)), F(0.5));
    assert_eq!(LogLoss::calc_grad(&y, &yhat, &w), wrap(&[-0.5, 1.0]));
    assert_eq!(LogLoss::calc_hess(&y, &yhat, &w), wrap(&[0.25, 0.5]));
    let loss = LogLoss::calc_loss(&y, &yhat, &w);
    assert_eq!(loss, wrap(&[-(0.5f64.ln()), -(0.5f64.ln()) * 2.0]));
}

#[test]
fn squared_loss_values() {
    let y = wrap(&[3.0, 1.0]);
    let yhat = wrap(&[1.0, 1.5]);
    let w = wrap(&[2.0, 4.0]);
    assert_eq!(SquaredLoss::calc_loss(&y, &yhat, &w), wrap(&[8.0, 1.0]));
    assert_eq!(SquaredLoss::calc_grad(&y, &yhat, &w), wrap(&[-4.0, 2.0]));
    assert_eq!(SquaredLoss::calc_hess(&y, &yhat, &w), wrap(&[2.0, 4.0]));
}

#[test]
fn callables_are_the_kernels_of_the_objective() {
    let y = wrap(&[3.0, 1.0, 0.0]);
    let yhat = wrap(&[1.0, 1.5, -2.0]);
    let w = wrap(&[2.0, 4.0, 1.0]);
    let (grad, hess) = gradient_hessian_callables(&ObjectiveType::LogLoss);
    assert_eq!(grad, ObjFn::LogLossGrad);
    assert_eq!(hess, ObjFn::LogLossHess);
    assert_eq!(grad.call(&y, &yhat, &w), LogLoss::calc_grad(&y, &yhat, &w));
    assert_eq!(hess.call(&y, &yhat, &w), LogLoss::calc_hess(&y, &yhat, &w));
    let (grad, hess) = gradient_hessian_callables(&ObjectiveType::SquaredLoss);
    assert_eq!(grad, ObjFn::SquaredLossGrad);
    assert_eq!(hess, ObjFn::SquaredLossHess);
    assert_eq!(grad.call(&y, &yhat, &w), wrap(&[-4.0, 2.0, -2.0]));
    assert_eq!(hess.call(&y, &yhat, &w), wrap(&[2.0, 4.0, 1.0]));
}

// ---- sampling ----

#[test]
fn sample_method_is_read_from_a_string() {
    assert_eq!(SampleMethod::from_str("random").unwrap(), SampleMethod::Random);
    assert_eq!(SampleMethod::from_str("goss").unwrap(), SampleMethod::Goss);
    assert_eq!("random".parse::<SampleMethod>().unwrap(), SampleMethod::Random);
    match SampleMethod::from_str("none") {
        Err(ForustError::ParseString(value, name, accepted)) => {
            assert_eq!(value, "none");
            assert_eq!(name, "SampleMethod");
            assert_eq!(accepted, vec!["random".to_string(), "goss".to_string()]);
        }
        _ => panic!("an unknown method was accepted"),
    }
    assert!(matches!(SampleMethod::from_str("Random"), Err(ForustError::ParseString(_, _, _))));
    assert!(matches!(SampleMethod::from_str(""), Err(ForustError::ParseString(_, _, _))));
}

#[test]
fn draws_lie_below_the_bound() {
    let mut rng = StdRng::seed_from_u64(7);
    let draws = draw_many(&mut rng, 1000, 5);
    assert_eq!(draws.len(), 1000);
    assert!(draws.iter().all(|d| *d < 5));
    for value in 0..5u64 {
        assert!(draws.iter().any(|d| *d == value));
    }
    let ones = draw_many(&mut rng, 20, 1);
    assert_eq!(ones, vec![0; 20]);
    assert!(draw_many(&mut rng, 0, 3).is_empty());
}

#[test]
fn draws_repeat_with_the_seed() {
    let mut first = StdRng::seed_from_u64(42);
    let mut second = StdRng::seed_from_u64(42);
    assert_eq!(draw_many(&mut first, 50, 1000), draw_many(&mut second, 50, 1000));
}

#[test]
fn kept_and_dropped_rows_are_apart() {
    let rows: Vec<usize> = (0..50).collect();
    let draws: Vec<u64> = (0..50).map(|i| (i * 13) % 10).collect();
    let (kept, dropped) = split_rows(&rows, &draws, 4);
    assert_eq!(kept.len() + dropped.len(), 50);
    assert!(kept.iter().all(|r| !dropped.contains(r)));
    assert!(kept.iter().all(|r| draws[*r] < 4));
    assert!(dropped.iter().all(|r| draws[*r] >= 4));
}

#[test]
fn split_rows_parts_by_the_draws() {
    let (kept, dropped) = split_rows(&[10, 11, 12, 13], &[0, 5, 4, 9], 5);
    assert_eq!(kept, vec![10, 12]);
    assert_eq!(dropped, vec![11, 13]);
    let (kept, dropped) = split_rows(&[], &[], 5);
    assert!(kept.is_empty() && dropped.is_empty());
}

#[test]
fn random_sampler_parts_the_rows() {
    let index: Vec<usize> = (0..200).collect();
    let mut grad = wrap(&vec![1.0; 200]);
    let mut hess = wrap(&vec![2.0; 200]);
    let mut rng = StdRng::seed_from_u64(3);
    let mut sampler = RandomSampler::new(F(0.5));
    let (chosen, excluded) = sampler.sample(&mut rng, &index, &mut grad, &mut hess).unwrap();
    assert_eq!(chosen.len() + excluded.len(), 200);
    assert!(chosen.len() > 50 && excluded.len() > 50);
    let mut all: Vec<usize> = chosen.iter().chain(excluded.iter()).copied().collect();
    all.sort();
    assert_eq!(all, index);
    assert!(chosen.windows(2).all(|p| p[0] < p[1]));
    assert!(excluded.windows(2).all(|p| p[0] < p[1]));
    assert_eq!(grad, wrap(&vec![1.0; 200]));
    assert_eq!(hess, wrap(&vec![2.0; 200]));

    let mut again = StdRng::seed_from_u64(3);
    let (chosen2, excluded2) = sampler.sample(&mut again, &index, &mut grad, &mut hess).unwrap();
    assert_eq!(chosen, chosen2);
    assert_eq!(excluded, excluded2);
}

#[test]
fn random_sampler_at_the_ends_of_the_rate() {
    let index: Vec<usize> = vec![4, 2, 9];
    let mut grad = wrap(&vec![1.0; 10]);
    let mut hess = wrap(&vec![1.0; 10]);
    let mut rng = StdRng::seed_from_u64(1);
    let (chosen, excluded) =
        RandomSampler::new(F(1.0)).sample(&mut rng, &index, &mut grad, &mut hess).unwrap();
    assert_eq!(chosen, index);
    assert!(excluded.is_empty());
    let (chosen, excluded) =
        RandomSampler::new(F(0.0)).sample(&mut rng, &index, &mut grad, &mut hess).unwrap();
    assert!(chosen.is_empty());
    assert_eq!(excluded, index);
    assert_eq!(DRAW_RESOLUTION, 1 << 24);
}

#[test]
fn goss_rates_are_checked_when_the_sampler_is_made() {
    assert!(GossSampler::new(F(0.2), F(0.1)).is_ok());
    assert!(GossSampler::new(F(0.0), F(1.0)).is_ok());
    match GossSampler::new(F(1.5), F(0.1)) {
        Err(ForustError::InvalidParameter(name)) => assert_eq!(name, "a"),
        _ => panic!("a rate above one was accepted"),
    }
    match GossSampler::new(F(0.5), F(-0.1)) {
        Err(ForustError::InvalidParameter(name)) => assert_eq!(name, "b"),
        _ => panic!("a rate below zero was accepted"),
    }
    match GossSampler::new(F(f64::NAN), F(2.0)) {
        Err(ForustError::InvalidParameter(name)) => assert_eq!(name, "a"),
        _ => panic!("a rate that is not a number was accepted"),
    }
}

#[test]
fn rank_rows_puts_the_largest_gradient_first() {
    let grad = wrap(&[1., -9., 3., f64::NAN, 3.]);
    assert_eq!(rank_rows(&[0, 1, 2, 3, 4], &grad), vec![3, 1, 4, 2, 0]);
    assert_eq!(rank_rows(&[2, 0], &grad), vec![2, 0]);
    assert_eq!(rank_rows(&[], &grad), Vec::<usize>::new());
}

#[test]
fn goss_keeps_the_largest_gradients() {
    let index: Vec<usize> = (0..10).collect();
    let before = wrap(&[1., -9., 3., 2., 10., -4., 5., 8., -7., 6.]);
    let mut grad = before.clone();
    let mut hess = wrap(&vec![1.0; 10]);
    let mut rng = StdRng::seed_from_u64(11);
    let mut sampler: GossSampler<F> = GossSampler::default();
    let (chosen, excluded) = sampler.sample(&mut rng, &index, &mut grad, &mut hess).unwrap();
    assert!(excluded.is_empty());
    assert!(chosen.len() >= 2 && chosen.len() <= 10);
    assert_eq!(&chosen[..2], &[4, 1]);
    let fact = (1.0 - 2.0 / 10.0) / (1.0 / 10.0);
    for row in 0..10 {
        let kept_at_random = chosen[2..].contains(&row);
        if kept_at_random {
            assert_eq!(grad[row], F(before[row].0 * fact));
            assert_eq!(hess[row], F(fact));
        } else {
            assert_eq!(grad[row], before[row]);
            assert_eq!(hess[row], F(1.0));
        }
    }
}

#[test]
fn goss_keeps_every_other_row_when_asked_for_all() {
    let index: Vec<usize> = vec![0, 1, 2, 3];
    let mut grad = wrap(&[1., 4., -3., 2.]);
    let mut hess = wrap(&[1., 1., 1., 1.]);
    let mut rng = StdRng::seed_from_u64(5);
    let mut sampler = GossSampler::new(F(0.5), F(1.0)).unwrap();
    let (chosen, excluded) = sampler.sample(&mut rng, &index, &mut grad, &mut hess).unwrap();
    assert_eq!(chosen, vec![1, 2, 3, 0]);
    assert!(excluded.is_empty());
    assert_eq!(grad, wrap(&[0.5, 4., -3., 1.]));
    assert_eq!(hess, wrap(&[0.5, 1., 1., 0.5]));
}

#[test]
fn goss_ranks_the_rows_of_the_index_only() {
    let index: Vec<usize> = vec![5, 1, 3];
    let mut grad = wrap(&[100., 2., 100., -6., 100., 4.]);
    let mut hess = wrap(&[1., 1., 1., 1., 1., 1.]);
    let mut rng = StdRng::seed_from_u64(5);
    let mut sampler = GossSampler::new(F(0.0), F(1.0)).unwrap();
    let (chosen, _) = sampler.sample(&mut rng, &index, &mut grad, &mut hess).unwrap();
    assert_eq!(chosen, vec![3, 5, 1]);
    assert_eq!(grad, wrap(&[100., 2., 100., -6., 100., 4.]));
}

#[test]
fn goss_breaks_ties_by_the_later_row() {
    let index: Vec<usize> = vec![0, 1, 2];
    let mut grad = wrap(&[1., -1., 1.]);
    let mut hess = wrap(&[1., 1., 1.]);
    let mut rng = StdRng::seed_from_u64(5);
    let mut sampler = GossSampler::new(F(0.0), F(1.0)).unwrap();
    let (chosen, _) = sampler.sample(&mut rng, &index, &mut grad, &mut hess).unwrap();
    assert_eq!(chosen, vec![2, 1, 0]);
}

#[test]
fn goss_fails_when_no_row_is_left_to_draw_from() {
    let index: Vec<usize> = vec![0, 1, 2];
    let mut grad = wrap(&[1., 2., 3.]);
    let mut hess = wrap(&[1., 1., 1.]);
    let mut rng = StdRng::seed_from_u64(5);
    let mut sampler = GossSampler::new(F(1.0), F(0.5)).unwrap();
    let r = sampler.sample(&mut rng, &index, &mut grad, &mut hess);
    assert!(matches!(r, Err(ForustError::DegenerateSampling)));
    assert_eq!(grad, wrap(&[1., 2., 3.]));
    let r = sampler.sample(&mut rng, &[], &mut grad, &mut hess);
    assert!(matches!(r, Err(ForustError::DegenerateSampling)));
}

#[test]
fn goss_repeats_with_the_seed() {
    let index: Vec<usize> = (0..100).collect();
    let values: Vec<f64> = (0..100).map(|i| ((i * 31) % 17) as f64 - 8.0).collect();
    let mut sampler = GossSampler::new(F(0.1), F(0.4)).unwrap();
    let mut grad1 = wrap(&values);
    let mut hess1 = wrap(&vec![1.0; 100]);
    let mut rng1 = StdRng::seed_from_u64(99);
    let (chosen1, _) = sampler.sample(&mut rng1, &index, &mut grad1, &mut hess1).unwrap();
    let mut grad2 = wrap(&values);
    let mut hess2 = wrap(&vec![1.0; 100]);
    let mut rng2 = StdRng::seed_from_u64(99);
    let (chosen2, _) = sampler.sample(&mut rng2, &index, &mut grad2, &mut hess2).unwrap();
    assert_eq!(chosen1, chosen2);
    assert_eq!(grad1, grad2);
    assert_eq!(hess1, hess2);
    assert!(chosen1.len() >= 10);
    let top: Vec<f64> = chosen1[..10].iter().map(|r| values[*r].abs()).collect();
    assert!(top.iter().all(|g| *g == 8.0 || *g == 7.0));
}

#[test]
fn goss_counts_cut_the_shares_down() {
    assert_eq!(goss_counts(F(0.2), F(0.1), 10), (2, 1));
    assert_eq!(goss_counts(F(0.25), F(0.5), 7), (1, 3));
    assert_eq!(goss_counts(F(1.0), F(1.0), 5), (5, 5));
    assert_eq!(goss_counts(F(0.0), F(0.0), 5), (0, 0));
    assert_eq!(goss_counts(F(0.5), F(0.5), 0), (0, 0));
}

#[test]
fn goss_partition_follows_the_draws() {
    let index: Vec<usize> = vec![0, 1, 2, 3, 4, 5];
    let mut grad = wrap(&[1., -6., 3., 2., 5., -4.]);
    let mut hess = wrap(&[1., 1., 1., 1., 1., 1.]);
    // Two of six rows are kept for their gradient, and a row behind them is
    // kept where its draw is below three.
    let (chosen, excluded) =
        goss_partition(F(0.4), F(0.5), &index, &mut grad, &mut hess, &[0, 3, 2, 3]).unwrap();
    assert_eq!(chosen, vec![1, 4, 5, 3]);
    assert!(excluded.is_empty());
    let fact = (1.0 - 0.4) / 0.5;
    assert_eq!(grad, wrap(&[1., -6., 3., 2. * fact, 5., -4. * fact]));
    assert_eq!(hess, wrap(&[1., 1., 1., fact, 1., fact]));
}

#[test]
fn goss_partition_fails_without_a_pool() {
    let index: Vec<usize> = vec![0, 1];
    let mut grad = wrap(&[1., 2.]);
    let mut hess = wrap(&[1., 1.]);
    let r = goss_partition(F(1.0), F(0.5), &index, &mut grad, &mut hess, &[]);
    assert!(matches!(r, Err(ForustError::DegenerateSampling)));
    assert_eq!(grad, wrap(&[1., 2.]));
    assert_eq!(hess, wrap(&[1., 1.]));
}

#[test]
fn sample_rows_without_sampling_takes_every_row() {
    let index: Vec<usize> = vec![3, 0, 2];
    let mut grad = wrap(&[1., 2., 3., 4.]);
    let mut hess = wrap(&[5., 6., 7., 8.]);
    let mut rng = StdRng::seed_from_u64(1);
    let (chosen, excluded) = sample_rows(
        SampleMethod::NoSampling,
        F(0.1),
        F(7.0),
        F(f64::NAN),
        &mut rng,
        &index,
        &mut grad,
        &mut hess,
    )
    .unwrap();
    assert_eq!(chosen, index);
    assert!(excluded.is_empty());
    assert_eq!(grad, wrap(&[1., 2., 3., 4.]));
    assert_eq!(hess, wrap(&[5., 6., 7., 8.]));
    let mut untouched = StdRng::seed_from_u64(1);
    assert_eq!(draw_many(&mut rng, 5, 100), draw_many(&mut untouched, 5, 100));
}

#[test]
fn sample_rows_samples_as_the_samplers_do() {
    let index: Vec<usize> = (0..60).collect();
    let values: Vec<f64> = (0..60).map(|i| ((i * 17) % 23) as f64 - 11.0).collect();

    let mut grad = wrap(&values);
    let mut hess = wrap(&vec![1.0; 60]);
    let mut rng = StdRng::seed_from_u64(8);
    let by_method = sample_rows(
        SampleMethod::Random,
        F(0.3),
        F(0.2),
        F(0.1),
        &mut rng,
        &index,
        &mut grad,
        &mut hess,
    )
    .unwrap();
    let mut rng = StdRng::seed_from_u64(8);
    let by_sampler =
        RandomSampler::new(F(0.3)).sample(&mut rng, &index, &mut grad, &mut hess).unwrap();
    assert_eq!(by_method, by_sampler);
    assert_eq!(grad, wrap(&values));

    let mut grad1 = wrap(&values);
    let mut hess1 = wrap(&vec![1.0; 60]);
    let mut rng = StdRng::seed_from_u64(8);
    let by_method = sample_rows(
        SampleMethod::Goss,
        F(0.3),
        F(0.2),
        F(0.5),
        &mut rng,
        &index,
        &mut grad1,
        &mut hess1,
    )
    .unwrap();
    let mut grad2 = wrap(&values);
    let mut hess2 = wrap(&vec![1.0; 60]);
    let mut rng = StdRng::seed_from_u64(8);
    let by_sampler = GossSampler::new(F(0.2), F(0.5))
        .unwrap()
        .sample(&mut rng, &index, &mut grad2, &mut hess2)
        .unwrap();
    assert_eq!(by_method, by_sampler);
    assert_eq!(grad1, grad2);
    assert_eq!(hess1, hess2);
    assert!(by_method.0.len() > 12);
}

#[test]
fn sample_rows_rejects_rates_out_of_range() {
    let index: Vec<usize> = vec![0, 1];
    let mut grad = wrap(&[1., 2.]);
    let mut hess = wrap(&[1., 1.]);
    let mut rng = StdRng::seed_from_u64(8);
    let r = sample_rows(
        SampleMethod::Goss,
        F(0.5),
        F(0.2),
        F(1.5),
        &mut rng,
        &index,
        &mut grad,
        &mut hess,
    );
    match r {
        Err(ForustError::InvalidParameter(name)) => assert_eq!(name, "b"),
        _ => panic!("a rate above one was accepted"),
    }
    assert_eq!(grad, wrap(&[1., 2.]));
    let r = sample_rows(
        SampleMethod::Goss,
        F(0.5),
        F(1.0),
        F(0.5),
        &mut rng,
        &index,
        &mut grad,
        &mut hess,
    );
    assert!(matches!(r, Err(ForustError::DegenerateSampling)));
}
