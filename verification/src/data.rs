use vstd::prelude::*;

verus! {

/// The numeric type of a feature matrix.
///
/// A value is either not a number, or a number with a place in the numeric
/// order. The model behind the contracts is `is_nan_spec` and `rank`: two
/// numbers compare as their ranks do, and a comparison with a value that is
/// not a number is false. Infinite values are numbers; they lie outside
/// `MIN` and `MAX`. Arithmetic and conversions are not
/// interpreted: each has a spec function that stands for its result, and the
/// contracts of this library are stated over those.
///
/// The contracts of the methods are what an implementation promises, and
/// what every proof in this library rests on: each method returns what its
/// spec function says, so calling it twice on the same values gives the same
/// value. Values that are not numbers count as one value here, whatever bits
/// tell them apart. For a type of floating-point numbers this holds as far as
/// the machine and its mathematical library return the same result for the
/// same arguments, which is to be expected within one build of a program and
/// not from one machine to another.
pub trait MatrixData: Copy {
    /// The number zero.
    const ZERO: Self;

    /// The number one.
    const ONE: Self;

    /// The smallest finite value.
    const MIN: Self;

    /// The largest finite value.
    const MAX: Self;

    /// The value is not a number.
    spec fn is_nan_spec(self) -> bool;

    /// The place of a number in the numeric order. Equal numbers share it.
    spec fn rank(self) -> i64;

    /// The value that `from_u16` gives.
    spec fn from_u16_spec(v: u16) -> Self;

    /// The value that `from_usize` gives.
    spec fn from_usize_spec(v: usize) -> Self;

    /// The value that `add` gives.
    spec fn add_spec(self, rhs: Self) -> Self;

    /// The value that `sub` gives.
    spec fn sub_spec(self, rhs: Self) -> Self;

    /// The value that `mul` gives.
    spec fn mul_spec(self, rhs: Self) -> Self;

    /// The value that `div` gives.
    spec fn div_spec(self, rhs: Self) -> Self;

    /// The number `v` in this type.
    fn from_u16(v: u16) -> (r: Self)
        ensures
            r == Self::from_u16_spec(v),
    ;

    /// The number `v` in this type, as near as the type can hold it.
    fn from_usize(v: usize) -> (r: Self)
        ensures
            r == Self::from_usize_spec(v),
    ;

    /// Whether the value is not a number.
    fn is_nan(self) -> (b: bool)
        ensures
            b == self.is_nan_spec(),
    ;

    /// `self == other` as numbers.
    fn eq(self, other: Self) -> (b: bool)
        ensures
            b == (!self.is_nan_spec() && !other.is_nan_spec() && self.rank() == other.rank()),
    ;

    /// `self < other` as numbers.
    fn lt(self, other: Self) -> (b: bool)
        ensures
            b == (!self.is_nan_spec() && !other.is_nan_spec() && self.rank() < other.rank()),
    ;

    /// `self <= other` as numbers.
    fn le(self, other: Self) -> (b: bool)
        ensures
            b == (!self.is_nan_spec() && !other.is_nan_spec() && self.rank() <= other.rank()),
    ;

    /// `self + rhs`.
    fn add(self, rhs: Self) -> (r: Self)
        ensures
            r == self.add_spec(rhs),
    ;

    /// `self - rhs`.
    fn sub(self, rhs: Self) -> (r: Self)
        ensures
            r == self.sub_spec(rhs),
    ;

    /// `self * rhs`.
    fn mul(self, rhs: Self) -> (r: Self)
        ensures
            r == self.mul_spec(rhs),
    ;

    /// `self / rhs`. It does not panic where `rhs` is zero.
    fn div(self, rhs: Self) -> (r: Self)
        ensures
            r == self.div_spec(rhs),
    ;
}

/// A numeric type with the functions and conversions that the objectives and
/// the samplers need. As in `MatrixData`, each has a spec function that
/// stands for its result and says nothing more of it.
pub trait FloatData: MatrixData {
    /// The value that `neg` gives.
    spec fn neg_spec(self) -> Self;

    /// The value that `abs` gives.
    spec fn abs_spec(self) -> Self;

    /// The value that `exp` gives.
    spec fn exp_spec(self) -> Self;

    /// The value that `ln` gives.
    spec fn ln_spec(self) -> Self;

    /// The value cut down to a whole number that fits a `usize`.
    spec fn to_usize_spec(self) -> usize;

    /// `-self`.
    fn neg(self) -> (r: Self)
        ensures
            r == self.neg_spec(),
    ;

    /// The absolute value.
    fn abs(self) -> (r: Self)
        ensures
            r == self.abs_spec(),
    ;

    /// The exponential function.
    fn exp(self) -> (r: Self)
        ensures
            r == self.exp_spec(),
    ;

    /// The natural logarithm.
    fn ln(self) -> (r: Self)
        ensures
            r == self.ln_spec(),
    ;

    /// The value cut down to a whole number that fits a `usize`. It does not
    /// panic on any value.
    fn to_usize(self) -> (r: usize)
        ensures
            r == self.to_usize_spec(),
    ;
}

/// Both are numbers and equal.
pub open spec fn eq_spec<T: MatrixData>(a: T, b: T) -> bool {
    !a.is_nan_spec() && !b.is_nan_spec() && a.rank() == b.rank()
}

/// Both are numbers and `a` is the smaller.
pub open spec fn lt_spec<T: MatrixData>(a: T, b: T) -> bool {
    !a.is_nan_spec() && !b.is_nan_spec() && a.rank() < b.rank()
}

/// Both are numbers and `a` is not the larger.
pub open spec fn le_spec<T: MatrixData>(a: T, b: T) -> bool {
    !a.is_nan_spec() && !b.is_nan_spec() && a.rank() <= b.rank()
}

/// A number between the smallest and the largest finite value. Anything
/// else is a missing value.
pub open spec fn is_finite_spec<T: MatrixData>(a: T) -> bool {
    le_spec(T::MIN, a) && le_spec(a, T::MAX)
}

/// Whether `a` is present, that is finite.
pub fn is_finite<T: MatrixData>(a: T) -> (b: bool)
    ensures
        b == is_finite_spec(a),
{
    T::MIN.le(a) && a.le(T::MAX)
}

/// A rectangular buffer stored column by column: the entry of row `r` in
/// column `c` lives at offset `c * rows + r`.
pub struct Matrix<'a, T> {
    pub data: &'a [T],
    pub rows: usize,
    pub cols: usize,
}

impl<'a, T: Copy> Matrix<'a, T> {
    /// The buffer holds exactly `rows * cols` entries.
    pub open spec fn wf(&self) -> bool {
        self.data@.len() == self.rows * self.cols
    }

    /// The entries of one column, by row.
    pub open spec fn column(&self, col: int) -> Seq<T> {
        self.data@.subrange(col * self.rows, col * self.rows + self.rows)
    }

    /// The entry of a row in a column.
    pub open spec fn entry(&self, row: int, col: int) -> T {
        self.data@[col * self.rows + row]
    }

    /// The matrix of `rows` rows and `cols` columns over a buffer of as many
    /// entries.
    pub fn new(data: &'a [T], rows: usize, cols: usize) -> (m: Self)
        requires
            data@.len() == rows * cols,
        ensures
            m.wf(),
            m.data@ == data@,
            m.rows == rows,
            m.cols == cols,
    {
        Matrix { data, rows, cols }
    }

    /// The entry of a row in a column.
    pub fn get(&self, row: usize, col: usize) -> (r: T)
        requires
            self.wf(),
            row < self.rows,
            col < self.cols,
        ensures
            r == self.entry(row as int, col as int),
    {
        let len: usize = self.data.len();
        proof {
            lemma_column_in_bounds(self.rows as int, self.cols as int, col as int);
            assert(col * self.rows + self.rows <= len);
        }
        self.data[col * self.rows + row]
    }

    /// The entries of one column, by row.
    pub fn get_col(&self, col: usize) -> (r: &'a [T])
        requires
            self.wf(),
            col < self.cols,
        ensures
            r@ == self.column(col as int),
    {
        let len: usize = self.data.len();
        proof {
            lemma_column_in_bounds(self.rows as int, self.cols as int, col as int);
            assert(col * self.rows + self.rows <= len);
        }
        let start: usize = col * self.rows;
        vstd::slice::slice_subrange(self.data, start, start + self.rows)
    }
}

/// A column holds one entry for each row.
pub proof fn lemma_column_entries<T: Copy>(data: Matrix<T>, col: int)
    requires
        data.wf(),
        0 <= col < data.cols,
    ensures
        data.column(col).len() == data.rows,
        forall|row: int| 0 <= row < data.rows ==> #[trigger] data.column(col)[row] == data.entry(row, col),
{
    lemma_column_in_bounds(data.rows as int, data.cols as int, col);
}

/// The offset of an entry lies inside its column, and the column in front
/// of the end of the columns.
pub proof fn lemma_entry_offset(rows: int, cols: int, row: int, col: int)
    requires
        0 <= row < rows,
        0 <= col < cols,
    ensures
        0 <= col * rows <= col * rows + row < col * rows + rows <= cols * rows,
        cols * rows == rows * cols,
{
    assert(0 <= col * rows) by (nonlinear_arith)
        requires
            0 <= rows,
            0 <= col,
    ;
    assert(col * rows + rows <= cols * rows) by (nonlinear_arith)
        requires
            0 <= rows,
            0 <= col < cols,
    ;
    assert(cols * rows == rows * cols) by (nonlinear_arith);
}

/// A column of a `rows` by `cols` buffer lies inside it.
pub proof fn lemma_column_in_bounds(rows: int, cols: int, col: int)
    requires
        0 <= rows,
        0 <= col < cols,
    ensures
        0 <= col * rows,
        col * rows + rows <= rows * cols,
{
    assert(0 <= col * rows) by (nonlinear_arith)
        requires
            0 <= rows,
            0 <= col,
    ;
    assert(col * rows + rows <= rows * cols) by (nonlinear_arith)
        requires
            0 <= rows,
            0 <= col < cols,
    ;
}

} // verus!
