//! The dense two-dimensional matrix.
//!
//! A `Matrix` owns one flat buffer of `i64` values, stored column-major,
//! together with its physical dimensions and an orientation flag. The flag
//! gives an O(1) transpose: it swaps the meaning of "row" and "column" in
//! every accessor instead of moving data. Every operation's contract is
//! stated over the abstract [`MatrixView`] model.

use vstd::prelude::*;

use crate::linear_algebra::error::MatrixError;
use crate::linear_algebra::model::{
    broadcast_rows, broadcast_rows_at, dot, dot_fits, fits_i64, int_seq, lemma_flattened_index,
    lemma_flattened_untransposed, lemma_position_in_bounds, products, seq_sum, seq_sum_fits,
    cofactor_sign, det_fits, det_of, det_sum, det_sum_fits, det_term, lemma_det_sum_fits_unroll,
    minor, MatrixView,
};
use crate::linear_algebra::fbits::{f32_le_bytes, flatt_bytes};
use crate::linear_algebra::rng::{lcg_iter, rand_elem};

verus! {

/// A nested buffer of columns, read as sequences of integers.
pub open spec fn columns_of(vec: Seq<Vec<i64>>) -> Seq<Seq<int>> {
    vec.map_values(|column: Vec<i64>| int_seq(column@))
}

/// The first position whose length differs from the first column's, looking
/// from position `i` on; the length of `vec` when all agree.
pub open spec fn first_mismatch_from(vec: Seq<Vec<i64>>, i: int) -> int
    decreases vec.len() - i,
{
    if i >= vec.len() {
        vec.len() as int
    } else if vec[i]@.len() != vec[0]@.len() {
        i
    } else {
        first_mismatch_from(vec, i + 1)
    }
}

/// The first position whose length differs from the first column's.
pub open spec fn first_mismatch(vec: Seq<Vec<i64>>) -> int {
    first_mismatch_from(vec, 0)
}

/// A run of agreeing lengths followed by a disagreeing one pins down the
/// first mismatch.
proof fn lemma_first_mismatch_from_here(vec: Seq<Vec<i64>>, s: int, i: int)
    requires
        0 <= s <= i < vec.len(),
        forall|j: int| s <= j < i ==> #[trigger] vec[j]@.len() == vec[0]@.len(),
        vec[i]@.len() != vec[0]@.len(),
    ensures
        first_mismatch_from(vec, s) == i,
    decreases i - s,
{
    if s < i {
        lemma_first_mismatch_from_here(vec, s + 1, i);
    }
}

/// A dense matrix of `i64` values with a lazily applied transpose.
#[derive(Debug)]
pub struct Matrix {
    cols: usize,
    rows: usize,
    matrix_flatt: Vec<i64>,
    is_transpose: bool,
}

impl View for Matrix {
    type V = MatrixView;

    closed spec fn view(&self) -> MatrixView {
        MatrixView {
            cols: self.cols as nat,
            rows: self.rows as nat,
            flatt: int_seq(self.matrix_flatt@),
            transposed: self.is_transpose,
        }
    }
}

impl Matrix {
    /// The shape invariant: one stored value per cell, at all times.
    #[verifier::type_invariant]
    spec fn shape_inv(self) -> bool {
        self.matrix_flatt@.len() == self.cols * self.rows
    }

    /// The largest valid index of an axis with `n` positions (0 for an
    /// empty axis, which has no valid index to report).
    pub open spec fn max_index(n: nat) -> nat {
        if n == 0 {
            0
        } else {
            (n - 1) as nat
        }
    }

    /// Reads the value of logical cell `(r, c)`. Private: public access
    /// goes through the bounds-checked `index`.
    fn at(&self, r: usize, c: usize) -> (x: i64)
        requires
            r < self@.logical_rows(),
            c < self@.logical_cols(),
        ensures
            x as int == self@.entry(r as int, c as int),
    {
        let n = self.matrix_flatt.len();
        proof {
            use_type_invariant(self);
            lemma_position_in_bounds(self@, r as int, c as int);
            assert(self@.flatt.len() == n);
        }
        if self.is_transpose {
            self.matrix_flatt[r * self.rows + c]
        } else {
            self.matrix_flatt[c * self.rows + r]
        }
    }

    /// Builds a matrix from its flat column-major buffer and dimensions.
    /// Rejects a buffer whose length is not `cols * rows`.
    pub fn new_flatt(matrix_flatt: Vec<i64>, cols: usize, rows: usize) -> (r: Result<
        Matrix,
        MatrixError,
    >)
        requires
            cols * rows <= usize::MAX,
        ensures
            match r {
                Ok(m) => matrix_flatt@.len() == cols * rows && m@ == (MatrixView {
                    cols: cols as nat,
                    rows: rows as nat,
                    flatt: int_seq(matrix_flatt@),
                    transposed: false,
                }),
                Err(e) => matrix_flatt@.len() != cols * rows && e == (MatrixError::ShapeError {
                    expected: (cols * rows) as usize,
                    got: matrix_flatt@.len() as usize,
                }),
            },
    {
        let expected = cols * rows;
        if expected != matrix_flatt.len() {
            Err(MatrixError::ShapeError { expected, got: matrix_flatt.len() })
        } else {
            Ok(Matrix { cols, rows, matrix_flatt, is_transpose: false })
        }
    }

    /// A `cols` by `rows` matrix with every value zero.
    pub fn new_zero(cols: usize, rows: usize) -> (m: Matrix)
        requires
            cols * rows <= usize::MAX,
        ensures
            m@ == (MatrixView {
                cols: cols as nat,
                rows: rows as nat,
                flatt: Seq::new((cols * rows) as nat, |k: int| 0),
                transposed: false,
            }),
    {
        let total = cols * rows;
        let mut flatt: Vec<i64> = Vec::new();
        let mut i: usize = 0;
        while i < total
            invariant
                i <= total,
                flatt@.len() == i,
                forall|k: int| 0 <= k < i ==> flatt@[k] == 0i64,
            decreases total - i,
        {
            flatt.push(0);
            i = i + 1;
        }
        let m = Matrix { cols, rows, matrix_flatt: flatt, is_transpose: false };
        proof {
            assert(m@.flatt =~= Seq::new((cols * rows) as nat, |k: int| 0));
        }
        m
    }

    /// Builds a matrix from a non-empty sequence of equally long runs of
    /// values; run `c` becomes physical (and logical) column `c`. Rejects
    /// the input when some run's length differs from the first run's,
    /// reporting the first offender.
    pub fn new(vec: Vec<Vec<i64>>) -> (r: Result<Matrix, MatrixError>)
        requires
            vec@.len() > 0,
        ensures
            match r {
                Ok(m) => (forall|i: int|
                    0 <= i < vec@.len() ==> #[trigger] vec@[i]@.len() == vec@[0]@.len()) && m@.wf()
                    && m@.cols == vec@.len() && m@.rows == vec@[0]@.len() && m@.transposed == false
                    && (forall|r2: int, c2: int|
                    0 <= r2 < m@.rows && 0 <= c2 < m@.cols ==> #[trigger] m@.entry(r2, c2)
                        == columns_of(vec@)[c2][r2]),
                Err(e) => (exists|i: int|
                    0 <= i < vec@.len() && #[trigger] vec@[i]@.len() != vec@[0]@.len()) && e == (
                MatrixError::ShapeError {
                    expected: vec@[0]@.len() as usize,
                    got: vec@[first_mismatch(vec@)]@.len() as usize,
                }),
            },
    {
        let cols = vec.len();
        let rows = vec[0].len();
        let mut flatt: Vec<i64> = Vec::new();
        let mut i: usize = 0;
        while i < cols
            invariant
                cols == vec@.len(),
                rows == vec@[0]@.len(),
                i <= cols,
                flatt@.len() == i * rows,
                forall|j: int| 0 <= j < i ==> #[trigger] vec@[j]@.len() == rows,
                forall|j: int, k: int|
                    0 <= j < i && 0 <= k < rows ==> #[trigger] flatt@[j * (rows as int) + k]
                        == vec@[j]@[k],
            decreases cols - i,
        {
            if vec[i].len() != rows {
                proof {
                    lemma_first_mismatch_from_here(vec@, 0, i as int);
                }
                return Err(MatrixError::ShapeError { expected: rows, got: vec[i].len() });
            }
            let mut j: usize = 0;
            while j < rows
                invariant
                    cols == vec@.len(),
                    rows == vec@[0]@.len(),
                    i < cols,
                    j <= rows,
                    vec@[i as int]@.len() == rows,
                    flatt@.len() == i * rows + j,
                    forall|j2: int, k: int|
                        0 <= j2 < i && 0 <= k < rows ==> #[trigger] flatt@[j2 * (rows as int) + k]
                            == vec@[j2]@[k],
                    forall|k: int|
                        0 <= k < j ==> #[trigger] flatt@[i * (rows as int) + k] == vec@[i as int]@[k],
                decreases rows - j,
            {
                flatt.push(vec[i][j]);
                proof {
                    assert forall|j2: int, k: int|
                        0 <= j2 < i && 0 <= k < rows implies #[trigger] flatt@[j2 * (rows as int)
                        + k] == vec@[j2]@[k] by {
                        assert(j2 * (rows as int) + k < i * (rows as int)) by (nonlinear_arith)
                            requires
                                0 <= j2 < i,
                                0 <= k < rows,
                        ;
                    }
                }
                j = j + 1;
            }
            proof {
                assert((i as int + 1) * (rows as int) == i as int * (rows as int) + rows as int)
                    by (nonlinear_arith);
            }
            i = i + 1;
        }
        let m = Matrix { cols, rows, matrix_flatt: flatt, is_transpose: false };
        proof {
            assert forall|r2: int, c2: int|
                0 <= r2 < m@.rows && 0 <= c2 < m@.cols implies #[trigger] m@.entry(r2, c2)
                == columns_of(vec@)[c2][r2] by {
                lemma_position_in_bounds(m@, r2, c2);
            }
        }
        Ok(m)
    }

    /// The outer product of two vectors: entry `(r, c)` is
    /// `vector1[c] * vector2[r]`, in shape `(len(vector1), len(vector2))`.
    pub fn new_outer(vector1: &Vec<i64>, vector2: &Vec<i64>) -> (m: Matrix)
        requires
            vector1@.len() > 0,
            forall|i: int, j: int|
                0 <= i < vector1@.len() && 0 <= j < vector2@.len() ==> fits_i64(
                    #[trigger] (vector1@[i] * vector2@[j]),
                ),
        ensures
            m@.wf(),
            m@.cols == vector1@.len(),
            m@.rows == vector2@.len(),
            m@.transposed == false,
            forall|r2: int, c2: int|
                0 <= r2 < m@.rows && 0 <= c2 < m@.cols ==> #[trigger] m@.entry(r2, c2)
                    == vector1@[c2] * vector2@[r2],
    {
        let mut vec: Vec<Vec<i64>> = Vec::new();
        let mut i: usize = 0;
        while i < vector1.len()
            invariant
                i <= vector1@.len(),
                vec@.len() == i,
                forall|j: int| 0 <= j < i ==> #[trigger] vec@[j]@.len() == vector2@.len(),
                forall|j: int, k: int|
                    0 <= j < i && 0 <= k < vector2@.len() ==> #[trigger] vec@[j]@[k] == vector1@[j]
                        * vector2@[k],
                forall|i2: int, j2: int|
                    0 <= i2 < vector1@.len() && 0 <= j2 < vector2@.len() ==> fits_i64(
                        #[trigger] (vector1@[i2] * vector2@[j2]),
                    ),
            decreases vector1@.len() - i,
        {
            let mut temp: Vec<i64> = Vec::new();
            let mut j: usize = 0;
            while j < vector2.len()
                invariant
                    i < vector1@.len(),
                    j <= vector2@.len(),
                    temp@.len() == j,
                    forall|k: int|
                        0 <= k < j ==> #[trigger] temp@[k] == vector1@[i as int] * vector2@[k],
                    forall|i2: int, j2: int|
                        0 <= i2 < vector1@.len() && 0 <= j2 < vector2@.len() ==> fits_i64(
                            #[trigger] (vector1@[i2] * vector2@[j2]),
                        ),
                decreases vector2@.len() - j,
            {
                temp.push(vector1[i] * vector2[j]);
                j = j + 1;
            }
            vec.push(temp);
            i = i + 1;
        }
        match Matrix::new(vec) {
            Ok(m) => m,
            Err(_) => {
                proof {
                    assert(false);
                }
                Matrix { cols: 0, rows: 0, matrix_flatt: Vec::new(), is_transpose: false }
            },
        }
    }

    /// Logical column `col` as a fresh vector, or the maximal valid column
    /// index when `col` is out of range.
    pub fn col(&self, col: usize) -> (r: Result<Vec<i64>, MatrixError>)
        ensures
            match r {
                Ok(v) => col < self@.logical_cols() && int_seq(v@) == self@.column(col as int),
                Err(e) => col >= self@.logical_cols() && e == (MatrixError::IndexOutOfBounds {
                    max: Self::max_index(self@.logical_cols()) as usize,
                }),
            },
    {
        let lcols = self.cols();
        if col >= lcols {
            return Err(
                MatrixError::IndexOutOfBounds { max: if lcols == 0 { 0 } else { lcols - 1 } },
            );
        }
        let lrows = self.rows();
        let mut out: Vec<i64> = Vec::new();
        let mut r: usize = 0;
        while r < lrows
            invariant
                col < self@.logical_cols(),
                lrows == self@.logical_rows(),
                r <= lrows,
                out@.len() == r,
                forall|k: int| 0 <= k < r ==> #[trigger] out@[k] as int == self@.entry(k, col as int),
            decreases lrows - r,
        {
            out.push(self.at(r, col));
            r = r + 1;
        }
        proof {
            assert(int_seq(out@) =~= self@.column(col as int));
        }
        Ok(out)
    }

    /// Logical row `row` as a fresh vector, or the maximal valid row index
    /// when `row` is out of range.
    pub fn row(&self, row: usize) -> (r: Result<Vec<i64>, MatrixError>)
        ensures
            match r {
                Ok(v) => row < self@.logical_rows() && int_seq(v@) == self@.row_at(row as int),
                Err(e) => row >= self@.logical_rows() && e == (MatrixError::IndexOutOfBounds {
                    max: Self::max_index(self@.logical_rows()) as usize,
                }),
            },
    {
        let lrows = self.rows();
        if row >= lrows {
            return Err(
                MatrixError::IndexOutOfBounds { max: if lrows == 0 { 0 } else { lrows - 1 } },
            );
        }
        let lcols = self.cols();
        let mut out: Vec<i64> = Vec::new();
        let mut c: usize = 0;
        while c < lcols
            invariant
                row < self@.logical_rows(),
                lcols == self@.logical_cols(),
                c <= lcols,
                out@.len() == c,
                forall|k: int| 0 <= k < c ==> #[trigger] out@[k] as int == self@.entry(row as int, k),
            decreases lcols - c,
        {
            out.push(self.at(row, c));
            c = c + 1;
        }
        proof {
            assert(int_seq(out@) =~= self@.row_at(row as int));
        }
        Ok(out)
    }

    /// The logical column-major flattening as a fresh vector: the stored
    /// buffer when untransposed, recomputed on demand otherwise.
    pub fn matrix_flatt(&self) -> (r: Vec<i64>)
        ensures
            int_seq(r@) == self@.flattened(),
            r@.len() == self@.logical_cols() * self@.logical_rows(),
    {
        proof {
            use_type_invariant(self);
        }
        if self.is_transpose {
            let lcols = self.cols();
            let lrows = self.rows();
            let mut out: Vec<i64> = Vec::new();
            let mut c: usize = 0;
            while c < lcols
                invariant
                    lcols == self@.logical_cols(),
                    lrows == self@.logical_rows(),
                    c <= lcols,
                    out@.len() == c * lrows,
                    forall|k: int|
                        0 <= k < out@.len() ==> #[trigger] out@[k] as int == self@.flattened()[k],
                decreases lcols - c,
            {
                let mut r: usize = 0;
                while r < lrows
                    invariant
                        lcols == self@.logical_cols(),
                        lrows == self@.logical_rows(),
                        c < lcols,
                        r <= lrows,
                        out@.len() == c * lrows + r,
                        forall|k: int|
                            0 <= k < out@.len() ==> #[trigger] out@[k] as int
                                == self@.flattened()[k],
                    decreases lrows - r,
                {
                    proof {
                        lemma_flattened_index(self@, r as int, c as int);
                    }
                    out.push(self.at(r, c));
                    r = r + 1;
                }
                proof {
                    assert((c as int + 1) * (lrows as int) == c as int * (lrows as int)
                        + lrows as int) by (nonlinear_arith);
                }
                c = c + 1;
            }
            proof {
                assert(int_seq(out@) =~= self@.flattened());
            }
            out
        } else {
            let n = self.matrix_flatt.len();
            let mut out: Vec<i64> = Vec::new();
            let mut i: usize = 0;
            while i < n
                invariant
                    n == self.matrix_flatt@.len(),
                    i <= n,
                    out@.len() == i,
                    forall|k: int| 0 <= k < i ==> #[trigger] out@[k] == self.matrix_flatt@[k],
                decreases n - i,
            {
                out.push(self.matrix_flatt[i]);
                i = i + 1;
            }
            proof {
                lemma_flattened_untransposed(self@);
                assert(int_seq(out@) =~= self@.flattened());
            }
            out
        }
    }

    /// The logical column count: the physical one, swapped when transposed.
    pub fn cols(&self) -> (n: usize)
        ensures
            n as nat == self@.logical_cols(),
    {
        if self.is_transpose {
            self.rows
        } else {
            self.cols
        }
    }

    /// The logical row count: the physical one, swapped when transposed.
    pub fn rows(&self) -> (n: usize)
        ensures
            n as nat == self@.logical_rows(),
    {
        if self.is_transpose {
            self.cols
        } else {
            self.rows
        }
    }

    /// Whether the matrix has as many logical rows as columns.
    pub fn is_square(&self) -> (r: bool)
        ensures
            r == (self@.logical_cols() == self@.logical_rows()),
    {
        self.cols() == self.rows()
    }

    /// The orientation flag.
    pub fn is_transpose(&self) -> (r: bool)
        ensures
            r == self@.transposed,
    {
        self.is_transpose
    }

    /// Transposes in O(1): flips the orientation flag, moves no data.
    pub fn transpose(&mut self)
        ensures
            final(self)@ == old(self)@.toggled(),
    {
        proof {
            use_type_invariant(&*self);
        }
        self.is_transpose = !self.is_transpose;
    }

    /// Truncating `i64` division of one cell.
    fn div_elem(a: i64, b: i64) -> (q: i64)
        requires
            b != 0,
            !(a == i64::MIN && b == -1),
        ensures
            q as int == crate::linear_algebra::model::trunc_div(a as int, b as int),
    {
        proof {
            crate::linear_algebra::model::lemma_trunc_div_fits(a as int, b as int);
            crate::linear_algebra::model::lemma_trunc_div_cases(a as int, b as int);
        }
        match a.checked_div(b) {
            Some(q) => q,
            None => 0,
        }
    }

    /// Adds `scalar` to every stored value in place.
    pub fn add_scalar(&mut self, scalar: &i64)
        requires
            forall|k: int|
                0 <= k < old(self)@.flatt.len() ==> fits_i64(
                    #[trigger] old(self)@.flatt[k] + *scalar,
                ),
        ensures
            final(self)@ == old(self)@.scalar_add(*scalar as int),
    {
        proof {
            use_type_invariant(&*self);
        }
        let n = self.matrix_flatt.len();
        let mut out: Vec<i64> = Vec::new();
        let mut k: usize = 0;
        while k < n
            invariant
                n == self.matrix_flatt@.len(),
                self.matrix_flatt@ == old(self).matrix_flatt@,
                k <= n,
                out@.len() == k,
                forall|t: int|
                    0 <= t < n ==> fits_i64(#[trigger] old(self)@.flatt[t] + *scalar),
                forall|t: int|
                    0 <= t < k ==> #[trigger] out@[t] as int == old(self)@.flatt[t] + *scalar,
            decreases n - k,
        {
            proof {
                assert(fits_i64(old(self)@.flatt[k as int] + *scalar));
                assert(old(self)@.flatt[k as int] == self.matrix_flatt@[k as int] as int);
            }
            out.push(self.matrix_flatt[k] + *scalar);
            k = k + 1;
        }
        self.matrix_flatt = out;
        proof {
            assert(self@.flatt =~= old(self)@.scalar_add(*scalar as int).flatt);
            assert(self@ =~= old(self)@.scalar_add(*scalar as int));
        }
    }

    /// Subtracts `scalar` from every stored value in place.
    pub fn sub_scalar(&mut self, scalar: &i64)
        requires
            forall|k: int|
                0 <= k < old(self)@.flatt.len() ==> fits_i64(
                    #[trigger] old(self)@.flatt[k] - *scalar,
                ),
        ensures
            final(self)@ == old(self)@.scalar_sub(*scalar as int),
    {
        proof {
            use_type_invariant(&*self);
        }
        let n = self.matrix_flatt.len();
        let mut out: Vec<i64> = Vec::new();
        let mut k: usize = 0;
        while k < n
            invariant
                n == self.matrix_flatt@.len(),
                self.matrix_flatt@ == old(self).matrix_flatt@,
                k <= n,
                out@.len() == k,
                forall|t: int|
                    0 <= t < n ==> fits_i64(#[trigger] old(self)@.flatt[t] - *scalar),
                forall|t: int|
                    0 <= t < k ==> #[trigger] out@[t] as int == old(self)@.flatt[t] - *scalar,
            decreases n - k,
        {
            proof {
                assert(fits_i64(old(self)@.flatt[k as int] - *scalar));
                assert(old(self)@.flatt[k as int] == self.matrix_flatt@[k as int] as int);
            }
            out.push(self.matrix_flatt[k] - *scalar);
            k = k + 1;
        }
        self.matrix_flatt = out;
        proof {
            assert(self@.flatt =~= old(self)@.scalar_sub(*scalar as int).flatt);
            assert(self@ =~= old(self)@.scalar_sub(*scalar as int));
        }
    }

    /// Multiplies every stored value by `scalar` in place.
    pub fn mul_scalar(&mut self, scalar: &i64)
        requires
            forall|k: int|
                0 <= k < old(self)@.flatt.len() ==> fits_i64(
                    #[trigger] (old(self)@.flatt[k] * *scalar),
                ),
        ensures
            final(self)@ == old(self)@.scalar_mul(*scalar as int),
    {
        proof {
            use_type_invariant(&*self);
        }
        let n = self.matrix_flatt.len();
        let mut out: Vec<i64> = Vec::new();
        let mut k: usize = 0;
        while k < n
            invariant
                n == self.matrix_flatt@.len(),
                self.matrix_flatt@ == old(self).matrix_flatt@,
                k <= n,
                out@.len() == k,
                forall|t: int|
                    0 <= t < n ==> fits_i64(#[trigger] (old(self)@.flatt[t] * *scalar)),
                forall|t: int|
                    0 <= t < k ==> #[trigger] out@[t] as int == old(self)@.flatt[t] * *scalar,
            decreases n - k,
        {
            proof {
                assert(fits_i64(old(self)@.flatt[k as int] * *scalar));
                assert(old(self)@.flatt[k as int] == self.matrix_flatt@[k as int] as int);
            }
            out.push(self.matrix_flatt[k] * *scalar);
            k = k + 1;
        }
        self.matrix_flatt = out;
        proof {
            assert(self@.flatt =~= old(self)@.scalar_mul(*scalar as int).flatt);
            assert(self@ =~= old(self)@.scalar_mul(*scalar as int));
        }
    }

    /// Divides every stored value by `scalar` in place, truncating toward
    /// zero as machine division does.
    pub fn div_scalar(&mut self, scalar: &i64)
        requires
            *scalar != 0,
            forall|k: int|
                0 <= k < old(self)@.flatt.len() ==> !(#[trigger] old(self)@.flatt[k]
                    == i64::MIN as int && *scalar == -1),
        ensures
            final(self)@ == old(self)@.scalar_div(*scalar as int),
    {
        proof {
            use_type_invariant(&*self);
        }
        let n = self.matrix_flatt.len();
        let mut out: Vec<i64> = Vec::new();
        let mut k: usize = 0;
        while k < n
            invariant
                n == self.matrix_flatt@.len(),
                self.matrix_flatt@ == old(self).matrix_flatt@,
                *scalar != 0,
                k <= n,
                out@.len() == k,
                forall|t: int|
                    0 <= t < n ==> !(#[trigger] old(self)@.flatt[t] == i64::MIN as int && *scalar
                        == -1),
                forall|t: int|
                    0 <= t < k ==> #[trigger] out@[t] as int
                        == crate::linear_algebra::model::trunc_div(
                        old(self)@.flatt[t],
                        *scalar as int,
                    ),
            decreases n - k,
        {
            proof {
                assert(!(old(self)@.flatt[k as int] == i64::MIN as int && *scalar == -1));
                assert(old(self)@.flatt[k as int] == self.matrix_flatt@[k as int] as int);
            }
            out.push(Self::div_elem(self.matrix_flatt[k], *scalar));
            k = k + 1;
        }
        self.matrix_flatt = out;
        proof {
            assert(self@.flatt =~= old(self)@.scalar_div(*scalar as int).flatt);
            assert(self@ =~= old(self)@.scalar_div(*scalar as int));
        }
    }

    /// The value at logical `(row, col)`, or the maximal valid index of the
    /// first axis that was exceeded (rows are checked first).
    pub fn index(&self, row: usize, col: usize) -> (r: Result<i64, MatrixError>)
        ensures
            match r {
                Ok(x) => row < self@.logical_rows() && col < self@.logical_cols() && x as int
                    == self@.entry(row as int, col as int),
                Err(e) => (row >= self@.logical_rows() || col >= self@.logical_cols()) && e == (
                MatrixError::IndexOutOfBounds {
                    max: (if row >= self@.logical_rows() {
                        Self::max_index(self@.logical_rows())
                    } else {
                        Self::max_index(self@.logical_cols())
                    }) as usize,
                }),
            },
    {
        let lrows = self.rows();
        let lcols = self.cols();
        if row >= lrows {
            Err(MatrixError::IndexOutOfBounds { max: if lrows == 0 { 0 } else { lrows - 1 } })
        } else if col >= lcols {
            Err(MatrixError::IndexOutOfBounds { max: if lcols == 0 { 0 } else { lcols - 1 } })
        } else {
            Ok(self.at(row, col))
        }
    }

    /// Writes `val` to logical `(row, col)`; on a bounds violation reports
    /// the maximal valid index and leaves the matrix unchanged.
    pub fn set_index(&mut self, row: usize, col: usize, val: i64) -> (r: Result<(), MatrixError>)
        ensures
            match r {
                Ok(()) => row < old(self)@.logical_rows() && col < old(self)@.logical_cols()
                    && final(self)@ == (MatrixView {
                    cols: old(self)@.cols,
                    rows: old(self)@.rows,
                    flatt: old(self)@.flatt.update(
                        old(self)@.position(row as int, col as int),
                        val as int,
                    ),
                    transposed: old(self)@.transposed,
                }),
                Err(e) => (row >= old(self)@.logical_rows() || col >= old(self)@.logical_cols())
                    && final(self)@ == old(self)@ && e == (MatrixError::IndexOutOfBounds {
                    max: (if row >= old(self)@.logical_rows() {
                        Self::max_index(old(self)@.logical_rows())
                    } else {
                        Self::max_index(old(self)@.logical_cols())
                    }) as usize,
                }),
            },
    {
        let lrows = self.rows();
        let lcols = self.cols();
        if row >= lrows {
            return Err(MatrixError::IndexOutOfBounds { max: if lrows == 0 { 0 } else { lrows - 1 } });
        }
        if col >= lcols {
            return Err(MatrixError::IndexOutOfBounds { max: if lcols == 0 { 0 } else { lcols - 1 } });
        }
        let n = self.matrix_flatt.len();
        proof {
            use_type_invariant(&*self);
            lemma_position_in_bounds(self@, row as int, col as int);
            assert(self@.flatt.len() == n);
        }
        let pos = if self.is_transpose {
            row * self.rows + col
        } else {
            col * self.rows + row
        };
        self.matrix_flatt[pos] = val;
        Ok(())
    }

    /// Adds the other matrix elementwise: the result holds the combination
    /// of the two logical flattenings, adopts the logical shape, and clears
    /// the transpose flag. Rejects a logical shape mismatch, reporting rows
    /// first, and then leaves the matrix unchanged.
    pub fn add_mat(&mut self, other: &Matrix) -> (r: Result<(), MatrixError>)
        requires
            (old(self)@.logical_rows() == other@.logical_rows() && old(self)@.logical_cols()
                == other@.logical_cols()) ==> forall|k2: int|
                0 <= k2 < old(self)@.flattened().len() ==> fits_i64(
                    #[trigger] (old(self)@.flattened()[k2] + other@.flattened()[k2]),
                ),
        ensures
            match r {
                Ok(()) => old(self)@.logical_rows() == other@.logical_rows() && old(
                self)@.logical_cols() == other@.logical_cols() && final(self)@ == old(
                self)@.combined(other@, |x: int, y: int| x + y),
                Err(e) => final(self)@ == old(self)@ && (if old(self)@.logical_rows()
                    != other@.logical_rows() {
                    e == (MatrixError::ShapeError {
                        expected: old(self)@.logical_rows() as usize,
                        got: other@.logical_rows() as usize,
                    })
                } else {
                    old(self)@.logical_cols() != other@.logical_cols() && e == (
                    MatrixError::ShapeError {
                        expected: old(self)@.logical_cols() as usize,
                        got: other@.logical_cols() as usize,
                    })
                }),
            },
    {
        if self.rows() != other.rows() {
            return Err(MatrixError::ShapeError { expected: self.rows(), got: other.rows() });
        }
        if self.cols() != other.cols() {
            return Err(MatrixError::ShapeError { expected: self.cols(), got: other.cols() });
        }
        let lcols = other.cols();
        let lrows = other.rows();
        let a = self.matrix_flatt();
        let b = other.matrix_flatt();
        let ghost fa = old(self)@.flattened();
        let ghost fb = other@.flattened();
        let n = a.len();
        let mut out: Vec<i64> = Vec::new();
        let mut k: usize = 0;
        while k < n
            invariant
                int_seq(a@) == fa,
                int_seq(b@) == fb,
                n == a@.len(),
                fa.len() == n,
                fb.len() == n,
                k <= n,
                out@.len() == k,
                forall|k2: int| 0 <= k2 < n ==> fits_i64(#[trigger] (fa[k2] + fb[k2])),
                forall|k2: int|
                    0 <= k2 < k ==> #[trigger] out@[k2] as int == fa[k2] + fb[k2],
            decreases n - k,
        {
            proof {
                assert(fits_i64(fa[k as int] + fb[k as int]));
                assert(a@[k as int] as int == fa[k as int] && b@[k as int] as int == fb[
                    k as int]);
            }
            out.push(a[k] + b[k]);
            k = k + 1;
        }
        *self = Matrix { cols: lcols, rows: lrows, matrix_flatt: out, is_transpose: false };
        proof {
            let target = old(self)@.combined(other@, |x: int, y: int| x + y);
            assert(self@.flatt =~= target.flatt);
            assert(self@ =~= target);
        }
        Ok(())
    }

    /// Subtracts the other matrix elementwise: the result holds the combination
    /// of the two logical flattenings, adopts the logical shape, and clears
    /// the transpose flag. Rejects a logical shape mismatch, reporting rows
    /// first, and then leaves the matrix unchanged.
    pub fn sub_mat(&mut self, other: &Matrix) -> (r: Result<(), MatrixError>)
        requires
            (old(self)@.logical_rows() == other@.logical_rows() && old(self)@.logical_cols()
                == other@.logical_cols()) ==> forall|k2: int|
                0 <= k2 < old(self)@.flattened().len() ==> fits_i64(
                    #[trigger] (old(self)@.flattened()[k2] - other@.flattened()[k2]),
                ),
        ensures
            match r {
                Ok(()) => old(self)@.logical_rows() == other@.logical_rows() && old(
                self)@.logical_cols() == other@.logical_cols() && final(self)@ == old(
                self)@.combined(other@, |x: int, y: int| x - y),
                Err(e) => final(self)@ == old(self)@ && (if old(self)@.logical_rows()
                    != other@.logical_rows() {
                    e == (MatrixError::ShapeError {
                        expected: old(self)@.logical_rows() as usize,
                        got: other@.logical_rows() as usize,
                    })
                } else {
                    old(self)@.logical_cols() != other@.logical_cols() && e == (
                    MatrixError::ShapeError {
                        expected: old(self)@.logical_cols() as usize,
                        got: other@.logical_cols() as usize,
                    })
                }),
            },
    {
        if self.rows() != other.rows() {
            return Err(MatrixError::ShapeError { expected: self.rows(), got: other.rows() });
        }
        if self.cols() != other.cols() {
            return Err(MatrixError::ShapeError { expected: self.cols(), got: other.cols() });
        }
        let lcols = other.cols();
        let lrows = other.rows();
        let a = self.matrix_flatt();
        let b = other.matrix_flatt();
        let ghost fa = old(self)@.flattened();
        let ghost fb = other@.flattened();
        let n = a.len();
        let mut out: Vec<i64> = Vec::new();
        let mut k: usize = 0;
        while k < n
            invariant
                int_seq(a@) == fa,
                int_seq(b@) == fb,
                n == a@.len(),
                fa.len() == n,
                fb.len() == n,
                k <= n,
                out@.len() == k,
                forall|k2: int| 0 <= k2 < n ==> fits_i64(#[trigger] (fa[k2] - fb[k2])),
                forall|k2: int|
                    0 <= k2 < k ==> #[trigger] out@[k2] as int == fa[k2] - fb[k2],
            decreases n - k,
        {
            proof {
                assert(fits_i64(fa[k as int] - fb[k as int]));
                assert(a@[k as int] as int == fa[k as int] && b@[k as int] as int == fb[
                    k as int]);
            }
            out.push(a[k] - b[k]);
            k = k + 1;
        }
        *self = Matrix { cols: lcols, rows: lrows, matrix_flatt: out, is_transpose: false };
        proof {
            let target = old(self)@.combined(other@, |x: int, y: int| x - y);
            assert(self@.flatt =~= target.flatt);
            assert(self@ =~= target);
        }
        Ok(())
    }

    /// Multiplies with the other matrix elementwise: the result holds the combination
    /// of the two logical flattenings, adopts the logical shape, and clears
    /// the transpose flag. Rejects a logical shape mismatch, reporting rows
    /// first, and then leaves the matrix unchanged.
    pub fn mul_mat(&mut self, other: &Matrix) -> (r: Result<(), MatrixError>)
        requires
            (old(self)@.logical_rows() == other@.logical_rows() && old(self)@.logical_cols()
                == other@.logical_cols()) ==> forall|k2: int|
                0 <= k2 < old(self)@.flattened().len() ==> fits_i64(
                    #[trigger] ((old(self)@.flattened()[k2] * other@.flattened()[k2])),
                ),
        ensures
            match r {
                Ok(()) => old(self)@.logical_rows() == other@.logical_rows() && old(
                self)@.logical_cols() == other@.logical_cols() && final(self)@ == old(
                self)@.combined(other@, |x: int, y: int| x * y),
                Err(e) => final(self)@ == old(self)@ && (if old(self)@.logical_rows()
                    != other@.logical_rows() {
                    e == (MatrixError::ShapeError {
                        expected: old(self)@.logical_rows() as usize,
                        got: other@.logical_rows() as usize,
                    })
                } else {
                    old(self)@.logical_cols() != other@.logical_cols() && e == (
                    MatrixError::ShapeError {
                        expected: old(self)@.logical_cols() as usize,
                        got: other@.logical_cols() as usize,
                    })
                }),
            },
    {
        if self.rows() != other.rows() {
            return Err(MatrixError::ShapeError { expected: self.rows(), got: other.rows() });
        }
        if self.cols() != other.cols() {
            return Err(MatrixError::ShapeError { expected: self.cols(), got: other.cols() });
        }
        let lcols = other.cols();
        let lrows = other.rows();
        let a = self.matrix_flatt();
        let b = other.matrix_flatt();
        let ghost fa = old(self)@.flattened();
        let ghost fb = other@.flattened();
        let n = a.len();
        let mut out: Vec<i64> = Vec::new();
        let mut k: usize = 0;
        while k < n
            invariant
                int_seq(a@) == fa,
                int_seq(b@) == fb,
                n == a@.len(),
                fa.len() == n,
                fb.len() == n,
                k <= n,
                out@.len() == k,
                forall|k2: int| 0 <= k2 < n ==> fits_i64(#[trigger] (fa[k2] * fb[k2])),
                forall|k2: int|
                    0 <= k2 < k ==> #[trigger] out@[k2] as int == fa[k2] * fb[k2],
            decreases n - k,
        {
            proof {
                assert(fits_i64(fa[k as int] * fb[k as int]));
                assert(a@[k as int] as int == fa[k as int] && b@[k as int] as int == fb[
                    k as int]);
            }
            out.push(a[k] * b[k]);
            k = k + 1;
        }
        *self = Matrix { cols: lcols, rows: lrows, matrix_flatt: out, is_transpose: false };
        proof {
            let target = old(self)@.combined(other@, |x: int, y: int| x * y);
            assert(self@.flatt =~= target.flatt);
            assert(self@ =~= target);
        }
        Ok(())
    }

    /// Divides by the other matrix elementwise (truncating toward zero):
    /// the result holds the combination of the two logical flattenings,
    /// adopts the logical shape, and clears the transpose flag. Rejects a
    /// logical shape mismatch, reporting rows first, and then leaves the
    /// matrix unchanged.
    pub fn div_mat(&mut self, other: &Matrix) -> (r: Result<(), MatrixError>)
        requires
            (old(self)@.logical_rows() == other@.logical_rows() && old(self)@.logical_cols()
                == other@.logical_cols()) ==> forall|k2: int|
                0 <= k2 < old(self)@.flattened().len() ==> #[trigger] other@.flattened()[k2] != 0
                    && !(old(self)@.flattened()[k2] == i64::MIN as int && other@.flattened()[k2]
                    == -1),
        ensures
            match r {
                Ok(()) => old(self)@.logical_rows() == other@.logical_rows() && old(
                self)@.logical_cols() == other@.logical_cols() && final(self)@ == old(
                self)@.combined(
                    other@,
                    |x: int, y: int| crate::linear_algebra::model::trunc_div(x, y),
                ),
                Err(e) => final(self)@ == old(self)@ && (if old(self)@.logical_rows()
                    != other@.logical_rows() {
                    e == (MatrixError::ShapeError {
                        expected: old(self)@.logical_rows() as usize,
                        got: other@.logical_rows() as usize,
                    })
                } else {
                    old(self)@.logical_cols() != other@.logical_cols() && e == (
                    MatrixError::ShapeError {
                        expected: old(self)@.logical_cols() as usize,
                        got: other@.logical_cols() as usize,
                    })
                }),
            },
    {
        if self.rows() != other.rows() {
            return Err(MatrixError::ShapeError { expected: self.rows(), got: other.rows() });
        }
        if self.cols() != other.cols() {
            return Err(MatrixError::ShapeError { expected: self.cols(), got: other.cols() });
        }
        let lcols = other.cols();
        let lrows = other.rows();
        let a = self.matrix_flatt();
        let b = other.matrix_flatt();
        let ghost fa = old(self)@.flattened();
        let ghost fb = other@.flattened();
        let n = a.len();
        let mut out: Vec<i64> = Vec::new();
        let mut k: usize = 0;
        while k < n
            invariant
                int_seq(a@) == fa,
                int_seq(b@) == fb,
                n == a@.len(),
                fa.len() == n,
                fb.len() == n,
                k <= n,
                out@.len() == k,
                forall|k2: int|
                    0 <= k2 < n ==> #[trigger] fb[k2] != 0 && !(fa[k2] == i64::MIN as int
                        && fb[k2] == -1),
                forall|k2: int|
                    0 <= k2 < k ==> #[trigger] out@[k2] as int
                        == crate::linear_algebra::model::trunc_div(fa[k2], fb[k2]),
            decreases n - k,
        {
            proof {
                assert(fb[k as int] != 0 && !(fa[k as int] == i64::MIN as int && fb[k as int]
                    == -1));
                assert(a@[k as int] as int == fa[k as int] && b@[k as int] as int == fb[
                    k as int]);
            }
            out.push(Self::div_elem(a[k], b[k]));
            k = k + 1;
        }
        *self = Matrix { cols: lcols, rows: lrows, matrix_flatt: out, is_transpose: false };
        proof {
            let target = old(self)@.combined(
                other@,
                |x: int, y: int| crate::linear_algebra::model::trunc_div(x, y),
            );
            assert(self@.flatt =~= target.flatt);
            assert(self@ =~= target);
        }
        Ok(())
    }

    /// Adds `vector[r]` to every cell of logical row `r`, except that the
    /// last logical row and the last logical column are left untouched (a
    /// boundary quirk of this operation family, kept for compatibility and
    /// stated exactly below). Rejects a vector whose length is not the
    /// logical row count and then leaves the matrix unchanged.
    pub fn add_vec(&mut self, vector: &Vec<i64>) -> (r: Result<(), MatrixError>)
        requires
            vector@.len() == old(self)@.logical_rows() ==> old(self)@.logical_rows() >= 1 && old(
            self)@.logical_cols() >= 1,
            vector@.len() == old(self)@.logical_rows() ==> forall|r2: int, c2: int|
                0 <= r2 < old(self)@.logical_rows() - 1 && 0 <= c2 < old(self)@.logical_cols() - 1
                    ==> fits_i64(#[trigger] (old(self)@.entry(r2, c2) + vector@[r2])),
        ensures
            match r {
                Ok(()) => vector@.len() == old(self)@.logical_rows() && final(self)@ == (MatrixView {
                    cols: old(self)@.cols,
                    rows: old(self)@.rows,
                    flatt: broadcast_rows(old(self)@, int_seq(vector@), |x: int, y: int| x + y),
                    transposed: old(self)@.transposed,
                }) && (forall|r2: int, c2: int|
                    0 <= r2 < old(self)@.logical_rows() && 0 <= c2 < old(self)@.logical_cols()
                        ==> #[trigger] final(self)@.entry(r2, c2) == (if r2 < old(
                    self)@.logical_rows() - 1 && c2 < old(self)@.logical_cols() - 1 {
                        old(self)@.entry(r2, c2) + vector@[r2]
                    } else {
                        old(self)@.entry(r2, c2)
                    })),
                Err(e) => vector@.len() != old(self)@.logical_rows() && final(self)@ == old(self)@
                    && e == (MatrixError::ShapeError {
                    expected: old(self)@.logical_rows() as usize,
                    got: vector@.len() as usize,
                }),
            },
    {
        let lrows = self.rows();
        let lcols = self.cols();
        if vector.len() != lrows {
            return Err(MatrixError::ShapeError { expected: lrows, got: vector.len() });
        }
        proof {
            use_type_invariant(&*self);
        }
        let ghost gf: spec_fn(int, int) -> int = |x: int, y: int| x + y;
        let n = self.matrix_flatt.len();
        let mut out: Vec<i64> = Vec::new();
        let mut p: usize = 0;
        while p < n
            invariant
                self.matrix_flatt@ == old(self).matrix_flatt@,
                self.cols == old(self).cols,
                self.rows == old(self).rows,
                self.is_transpose == old(self).is_transpose,
                n == self.matrix_flatt@.len(),
                n == self.cols * self.rows,
                vector@.len() == old(self)@.logical_rows(),
                lrows == old(self)@.logical_rows(),
                lcols == old(self)@.logical_cols(),
                lrows >= 1,
                lcols >= 1,
                gf == (|x: int, y: int| x + y),
                forall|r2: int, c2: int|
                    0 <= r2 < lrows - 1 && 0 <= c2 < lcols - 1 ==> fits_i64(
                        #[trigger] (old(self)@.entry(r2, c2) + vector@[r2]),
                    ),
                p <= n,
                out@.len() == p,
                forall|p2: int|
                    0 <= p2 < p ==> #[trigger] out@[p2] as int == broadcast_rows_at(
                        old(self)@,
                        int_seq(vector@),
                        gf,
                        p2,
                    ),
            decreases n - p,
        {
            proof {
                if self.rows == 0 {
                    assert(n == 0);
                }
                vstd::arithmetic::mul::lemma_mul_is_commutative(
                    self.rows as int,
                    self.cols as int,
                );
                vstd::arithmetic::mul::lemma_mul_is_commutative(
                    self.rows as int,
                    p as int / self.rows as int,
                );
                vstd::arithmetic::div_mod::lemma_fundamental_div_mod(
                    p as int,
                    self.rows as int,
                );
                vstd::arithmetic::div_mod::lemma_multiply_divide_lt(
                    p as int,
                    self.rows as int,
                    self.cols as int,
                );
            }
            let r2 = if self.is_transpose {
                p / self.rows
            } else {
                p % self.rows
            };
            let c2 = if self.is_transpose {
                p % self.rows
            } else {
                p / self.rows
            };
            proof {
                assert(self@.position(r2 as int, c2 as int) == p);
                assert(self@.entry(r2 as int, c2 as int) == old(self)@.flatt[p as int]);
                assert(r2 < lrows && c2 < lcols);
            }
            let cur = self.matrix_flatt[p];
            let val = if r2 + 1 < lrows && c2 + 1 < lcols {
                proof {
                    assert(fits_i64(old(self)@.entry(r2 as int, c2 as int) + vector@[r2 as int]));
                    assert(cur as int == old(self)@.entry(r2 as int, c2 as int));
                }
                cur + vector[r2]
            } else {
                cur
            };
            out.push(val);
            p = p + 1;
        }
        self.matrix_flatt = out;
        proof {
            let target = MatrixView {
                cols: old(self)@.cols,
                rows: old(self)@.rows,
                flatt: broadcast_rows(old(self)@, int_seq(vector@), gf),
                transposed: old(self)@.transposed,
            };
            assert(self@.flatt =~= target.flatt);
            assert(self@ =~= target);
            assert forall|r2: int, c2: int|
                0 <= r2 < old(self)@.logical_rows() && 0 <= c2 < old(self)@.logical_cols() implies #[trigger] self@.entry(
                r2,
                c2,
            ) == (if r2 < old(self)@.logical_rows() - 1 && c2 < old(self)@.logical_cols() - 1 {
                old(self)@.entry(r2, c2) + vector@[r2]
            } else {
                old(self)@.entry(r2, c2)
            }) by {
                crate::linear_algebra::model::lemma_broadcast_rows_entry(
                    old(self)@,
                    int_seq(vector@),
                    gf,
                    r2,
                    c2,
                );
                crate::linear_algebra::model::lemma_position_in_bounds(old(self)@, r2, c2);
            }
        }
        Ok(())
    }

    /// Subtracts `vector[r]` from every cell of logical row `r`, except that the
    /// last logical row and the last logical column are left untouched (a
    /// boundary quirk of this operation family, kept for compatibility and
    /// stated exactly below). Rejects a vector whose length is not the
    /// logical row count and then leaves the matrix unchanged.
    pub fn sub_vec(&mut self, vector: &Vec<i64>) -> (r: Result<(), MatrixError>)
        requires
            vector@.len() == old(self)@.logical_rows() ==> old(self)@.logical_rows() >= 1 && old(
            self)@.logical_cols() >= 1,
            vector@.len() == old(self)@.logical_rows() ==> forall|r2: int, c2: int|
                0 <= r2 < old(self)@.logical_rows() - 1 && 0 <= c2 < old(self)@.logical_cols() - 1
                    ==> fits_i64(#[trigger] (old(self)@.entry(r2, c2) - vector@[r2])),
        ensures
            match r {
                Ok(()) => vector@.len() == old(self)@.logical_rows() && final(self)@ == (MatrixView {
                    cols: old(self)@.cols,
                    rows: old(self)@.rows,
                    flatt: broadcast_rows(old(self)@, int_seq(vector@), |x: int, y: int| x - y),
                    transposed: old(self)@.transposed,
                }) && (forall|r2: int, c2: int|
                    0 <= r2 < old(self)@.logical_rows() && 0 <= c2 < old(self)@.logical_cols()
                        ==> #[trigger] final(self)@.entry(r2, c2) == (if r2 < old(
                    self)@.logical_rows() - 1 && c2 < old(self)@.logical_cols() - 1 {
                        old(self)@.entry(r2, c2) - vector@[r2]
                    } else {
                        old(self)@.entry(r2, c2)
                    })),
                Err(e) => vector@.len() != old(self)@.logical_rows() && final(self)@ == old(self)@
                    && e == (MatrixError::ShapeError {
                    expected: old(self)@.logical_rows() as usize,
                    got: vector@.len() as usize,
                }),
            },
    {
        let lrows = self.rows();
        let lcols = self.cols();
        if vector.len() != lrows {
            return Err(MatrixError::ShapeError { expected: lrows, got: vector.len() });
        }
        proof {
            use_type_invariant(&*self);
        }
        let ghost gf: spec_fn(int, int) -> int = |x: int, y: int| x - y;
        let n = self.matrix_flatt.len();
        let mut out: Vec<i64> = Vec::new();
        let mut p: usize = 0;
        while p < n
            invariant
                self.matrix_flatt@ == old(self).matrix_flatt@,
                self.cols == old(self).cols,
                self.rows == old(self).rows,
                self.is_transpose == old(self).is_transpose,
                n == self.matrix_flatt@.len(),
                n == self.cols * self.rows,
                vector@.len() == old(self)@.logical_rows(),
                lrows == old(self)@.logical_rows(),
                lcols == old(self)@.logical_cols(),
                lrows >= 1,
                lcols >= 1,
                gf == (|x: int, y: int| x - y),
                forall|r2: int, c2: int|
                    0 <= r2 < lrows - 1 && 0 <= c2 < lcols - 1 ==> fits_i64(
                        #[trigger] (old(self)@.entry(r2, c2) - vector@[r2]),
                    ),
                p <= n,
                out@.len() == p,
                forall|p2: int|
                    0 <= p2 < p ==> #[trigger] out@[p2] as int == broadcast_rows_at(
                        old(self)@,
                        int_seq(vector@),
                        gf,
                        p2,
                    ),
            decreases n - p,
        {
            proof {
                if self.rows == 0 {
                    assert(n == 0);
                }
                vstd::arithmetic::mul::lemma_mul_is_commutative(
                    self.rows as int,
                    self.cols as int,
                );
                vstd::arithmetic::mul::lemma_mul_is_commutative(
                    self.rows as int,
                    p as int / self.rows as int,
                );
                vstd::arithmetic::div_mod::lemma_fundamental_div_mod(
                    p as int,
                    self.rows as int,
                );
                vstd::arithmetic::div_mod::lemma_multiply_divide_lt(
                    p as int,
                    self.rows as int,
                    self.cols as int,
                );
            }
            let r2 = if self.is_transpose {
                p / self.rows
            } else {
                p % self.rows
            };
            let c2 = if self.is_transpose {
                p % self.rows
            } else {
                p / self.rows
            };
            proof {
                assert(self@.position(r2 as int, c2 as int) == p);
                assert(self@.entry(r2 as int, c2 as int) == old(self)@.flatt[p as int]);
                assert(r2 < lrows && c2 < lcols);
            }
            let cur = self.matrix_flatt[p];
            let val = if r2 + 1 < lrows && c2 + 1 < lcols {
                proof {
                    assert(fits_i64(old(self)@.entry(r2 as int, c2 as int) - vector@[r2 as int]));
                    assert(cur as int == old(self)@.entry(r2 as int, c2 as int));
                }
                cur - vector[r2]
            } else {
                cur
            };
            out.push(val);
            p = p + 1;
        }
        self.matrix_flatt = out;
        proof {
            let target = MatrixView {
                cols: old(self)@.cols,
                rows: old(self)@.rows,
                flatt: broadcast_rows(old(self)@, int_seq(vector@), gf),
                transposed: old(self)@.transposed,
            };
            assert(self@.flatt =~= target.flatt);
            assert(self@ =~= target);
            assert forall|r2: int, c2: int|
                0 <= r2 < old(self)@.logical_rows() && 0 <= c2 < old(self)@.logical_cols() implies #[trigger] self@.entry(
                r2,
                c2,
            ) == (if r2 < old(self)@.logical_rows() - 1 && c2 < old(self)@.logical_cols() - 1 {
                old(self)@.entry(r2, c2) - vector@[r2]
            } else {
                old(self)@.entry(r2, c2)
            }) by {
                crate::linear_algebra::model::lemma_broadcast_rows_entry(
                    old(self)@,
                    int_seq(vector@),
                    gf,
                    r2,
                    c2,
                );
                crate::linear_algebra::model::lemma_position_in_bounds(old(self)@, r2, c2);
            }
        }
        Ok(())
    }

    /// Multiplies every cell of logical row `r` by `vector[r]`, except that the
    /// last logical row and the last logical column are left untouched (a
    /// boundary quirk of this operation family, kept for compatibility and
    /// stated exactly below). Rejects a vector whose length is not the
    /// logical row count and then leaves the matrix unchanged.
    pub fn mul_vec(&mut self, vector: &Vec<i64>) -> (r: Result<(), MatrixError>)
        requires
            vector@.len() == old(self)@.logical_rows() ==> old(self)@.logical_rows() >= 1 && old(
            self)@.logical_cols() >= 1,
            vector@.len() == old(self)@.logical_rows() ==> forall|r2: int, c2: int|
                0 <= r2 < old(self)@.logical_rows() - 1 && 0 <= c2 < old(self)@.logical_cols() - 1
                    ==> fits_i64(#[trigger] (old(self)@.entry(r2, c2) * vector@[r2])),
        ensures
            match r {
                Ok(()) => vector@.len() == old(self)@.logical_rows() && final(self)@ == (MatrixView {
                    cols: old(self)@.cols,
                    rows: old(self)@.rows,
                    flatt: broadcast_rows(old(self)@, int_seq(vector@), |x: int, y: int| x * y),
                    transposed: old(self)@.transposed,
                }) && (forall|r2: int, c2: int|
                    0 <= r2 < old(self)@.logical_rows() && 0 <= c2 < old(self)@.logical_cols()
                        ==> #[trigger] final(self)@.entry(r2, c2) == (if r2 < old(
                    self)@.logical_rows() - 1 && c2 < old(self)@.logical_cols() - 1 {
                        old(self)@.entry(r2, c2) * vector@[r2]
                    } else {
                        old(self)@.entry(r2, c2)
                    })),
                Err(e) => vector@.len() != old(self)@.logical_rows() && final(self)@ == old(self)@
                    && e == (MatrixError::ShapeError {
                    expected: old(self)@.logical_rows() as usize,
                    got: vector@.len() as usize,
                }),
            },
    {
        let lrows = self.rows();
        let lcols = self.cols();
        if vector.len() != lrows {
            return Err(MatrixError::ShapeError { expected: lrows, got: vector.len() });
        }
        proof {
            use_type_invariant(&*self);
        }
        let ghost gf: spec_fn(int, int) -> int = |x: int, y: int| x * y;
        let n = self.matrix_flatt.len();
        let mut out: Vec<i64> = Vec::new();
        let mut p: usize = 0;
        while p < n
            invariant
                self.matrix_flatt@ == old(self).matrix_flatt@,
                self.cols == old(self).cols,
                self.rows == old(self).rows,
                self.is_transpose == old(self).is_transpose,
                n == self.matrix_flatt@.len(),
                n == self.cols * self.rows,
                vector@.len() == old(self)@.logical_rows(),
                lrows == old(self)@.logical_rows(),
                lcols == old(self)@.logical_cols(),
                lrows >= 1,
                lcols >= 1,
                gf == (|x: int, y: int| x * y),
                forall|r2: int, c2: int|
                    0 <= r2 < lrows - 1 && 0 <= c2 < lcols - 1 ==> fits_i64(
                        #[trigger] (old(self)@.entry(r2, c2) * vector@[r2]),
                    ),
                p <= n,
                out@.len() == p,
                forall|p2: int|
                    0 <= p2 < p ==> #[trigger] out@[p2] as int == broadcast_rows_at(
                        old(self)@,
                        int_seq(vector@),
                        gf,
                        p2,
                    ),
            decreases n - p,
        {
            proof {
                if self.rows == 0 {
                    assert(n == 0);
                }
                vstd::arithmetic::mul::lemma_mul_is_commutative(
                    self.rows as int,
                    self.cols as int,
                );
                vstd::arithmetic::mul::lemma_mul_is_commutative(
                    self.rows as int,
                    p as int / self.rows as int,
                );
                vstd::arithmetic::div_mod::lemma_fundamental_div_mod(
                    p as int,
                    self.rows as int,
                );
                vstd::arithmetic::div_mod::lemma_multiply_divide_lt(
                    p as int,
                    self.rows as int,
                    self.cols as int,
                );
            }
            let r2 = if self.is_transpose {
                p / self.rows
            } else {
                p % self.rows
            };
            let c2 = if self.is_transpose {
                p % self.rows
            } else {
                p / self.rows
            };
            proof {
                assert(self@.position(r2 as int, c2 as int) == p);
                assert(self@.entry(r2 as int, c2 as int) == old(self)@.flatt[p as int]);
                assert(r2 < lrows && c2 < lcols);
            }
            let cur = self.matrix_flatt[p];
            let val = if r2 + 1 < lrows && c2 + 1 < lcols {
                proof {
                    assert(fits_i64(old(self)@.entry(r2 as int, c2 as int) * vector@[r2 as int]));
                    assert(cur as int == old(self)@.entry(r2 as int, c2 as int));
                }
                cur * vector[r2]
            } else {
                cur
            };
            out.push(val);
            p = p + 1;
        }
        self.matrix_flatt = out;
        proof {
            let target = MatrixView {
                cols: old(self)@.cols,
                rows: old(self)@.rows,
                flatt: broadcast_rows(old(self)@, int_seq(vector@), gf),
                transposed: old(self)@.transposed,
            };
            assert(self@.flatt =~= target.flatt);
            assert(self@ =~= target);
            assert forall|r2: int, c2: int|
                0 <= r2 < old(self)@.logical_rows() && 0 <= c2 < old(self)@.logical_cols() implies #[trigger] self@.entry(
                r2,
                c2,
            ) == (if r2 < old(self)@.logical_rows() - 1 && c2 < old(self)@.logical_cols() - 1 {
                old(self)@.entry(r2, c2) * vector@[r2]
            } else {
                old(self)@.entry(r2, c2)
            }) by {
                crate::linear_algebra::model::lemma_broadcast_rows_entry(
                    old(self)@,
                    int_seq(vector@),
                    gf,
                    r2,
                    c2,
                );
                crate::linear_algebra::model::lemma_position_in_bounds(old(self)@, r2, c2);
            }
        }
        Ok(())
    }

    /// Divides every cell of logical row `r` by `vector[r]` (truncating toward zero), except that the
    /// last logical row and the last logical column are left untouched (a
    /// boundary quirk of this operation family, kept for compatibility and
    /// stated exactly below). Rejects a vector whose length is not the
    /// logical row count and then leaves the matrix unchanged.
    pub fn div_vec(&mut self, vector: &Vec<i64>) -> (r: Result<(), MatrixError>)
        requires
            vector@.len() == old(self)@.logical_rows() ==> old(self)@.logical_rows() >= 1 && old(
            self)@.logical_cols() >= 1,
            vector@.len() == old(self)@.logical_rows() ==> forall|r2: int|
                0 <= r2 < old(self)@.logical_rows() - 1 ==> #[trigger] vector@[r2] != 0,
            vector@.len() == old(self)@.logical_rows() ==> forall|r2: int, c2: int|
                0 <= r2 < old(self)@.logical_rows() - 1 && 0 <= c2 < old(self)@.logical_cols() - 1
                    ==> !(#[trigger] old(self)@.entry(r2, c2) == i64::MIN as int && vector@[r2]
                    == -1),
        ensures
            match r {
                Ok(()) => vector@.len() == old(self)@.logical_rows() && final(self)@ == (MatrixView {
                    cols: old(self)@.cols,
                    rows: old(self)@.rows,
                    flatt: broadcast_rows(old(self)@, int_seq(vector@), |x: int, y: int| crate::linear_algebra::model::trunc_div(x, y)),
                    transposed: old(self)@.transposed,
                }) && (forall|r2: int, c2: int|
                    0 <= r2 < old(self)@.logical_rows() && 0 <= c2 < old(self)@.logical_cols()
                        ==> #[trigger] final(self)@.entry(r2, c2) == (if r2 < old(
                    self)@.logical_rows() - 1 && c2 < old(self)@.logical_cols() - 1 {
                        crate::linear_algebra::model::trunc_div(old(self)@.entry(r2, c2), vector@[r2] as int)
                    } else {
                        old(self)@.entry(r2, c2)
                    })),
                Err(e) => vector@.len() != old(self)@.logical_rows() && final(self)@ == old(self)@
                    && e == (MatrixError::ShapeError {
                    expected: old(self)@.logical_rows() as usize,
                    got: vector@.len() as usize,
                }),
            },
    {
        let lrows = self.rows();
        let lcols = self.cols();
        if vector.len() != lrows {
            return Err(MatrixError::ShapeError { expected: lrows, got: vector.len() });
        }
        proof {
            use_type_invariant(&*self);
        }
        let ghost gf: spec_fn(int, int) -> int = |x: int, y: int| crate::linear_algebra::model::trunc_div(x, y);
        let n = self.matrix_flatt.len();
        let mut out: Vec<i64> = Vec::new();
        let mut p: usize = 0;
        while p < n
            invariant
                self.matrix_flatt@ == old(self).matrix_flatt@,
                self.cols == old(self).cols,
                self.rows == old(self).rows,
                self.is_transpose == old(self).is_transpose,
                n == self.matrix_flatt@.len(),
                n == self.cols * self.rows,
                vector@.len() == old(self)@.logical_rows(),
                lrows == old(self)@.logical_rows(),
                lcols == old(self)@.logical_cols(),
                lrows >= 1,
                lcols >= 1,
                gf == (|x: int, y: int| crate::linear_algebra::model::trunc_div(x, y)),
                forall|r2: int| 0 <= r2 < lrows - 1 ==> #[trigger] vector@[r2] != 0,
                forall|r2: int, c2: int|
                    0 <= r2 < lrows - 1 && 0 <= c2 < lcols - 1 ==> !(#[trigger] old(self)@.entry(
                        r2,
                        c2,
                    ) == i64::MIN as int && vector@[r2] == -1),
                p <= n,
                out@.len() == p,
                forall|p2: int|
                    0 <= p2 < p ==> #[trigger] out@[p2] as int == broadcast_rows_at(
                        old(self)@,
                        int_seq(vector@),
                        gf,
                        p2,
                    ),
            decreases n - p,
        {
            proof {
                if self.rows == 0 {
                    assert(n == 0);
                }
                vstd::arithmetic::mul::lemma_mul_is_commutative(
                    self.rows as int,
                    self.cols as int,
                );
                vstd::arithmetic::mul::lemma_mul_is_commutative(
                    self.rows as int,
                    p as int / self.rows as int,
                );
                vstd::arithmetic::div_mod::lemma_fundamental_div_mod(
                    p as int,
                    self.rows as int,
                );
                vstd::arithmetic::div_mod::lemma_multiply_divide_lt(
                    p as int,
                    self.rows as int,
                    self.cols as int,
                );
            }
            let r2 = if self.is_transpose {
                p / self.rows
            } else {
                p % self.rows
            };
            let c2 = if self.is_transpose {
                p % self.rows
            } else {
                p / self.rows
            };
            proof {
                assert(self@.position(r2 as int, c2 as int) == p);
                assert(self@.entry(r2 as int, c2 as int) == old(self)@.flatt[p as int]);
                assert(r2 < lrows && c2 < lcols);
            }
            let cur = self.matrix_flatt[p];
            let val = if r2 + 1 < lrows && c2 + 1 < lcols {
                proof {
                    assert(vector@[r2 as int] != 0 && !(old(self)@.entry(r2 as int, c2 as int)
                        == i64::MIN as int && vector@[r2 as int] == -1));
                    assert(cur as int == old(self)@.entry(r2 as int, c2 as int));
                }
                Self::div_elem(cur, vector[r2])
            } else {
                cur
            };
            out.push(val);
            p = p + 1;
        }
        self.matrix_flatt = out;
        proof {
            let target = MatrixView {
                cols: old(self)@.cols,
                rows: old(self)@.rows,
                flatt: broadcast_rows(old(self)@, int_seq(vector@), gf),
                transposed: old(self)@.transposed,
            };
            assert(self@.flatt =~= target.flatt);
            assert(self@ =~= target);
            assert forall|r2: int, c2: int|
                0 <= r2 < old(self)@.logical_rows() && 0 <= c2 < old(self)@.logical_cols() implies #[trigger] self@.entry(
                r2,
                c2,
            ) == (if r2 < old(self)@.logical_rows() - 1 && c2 < old(self)@.logical_cols() - 1 {
                crate::linear_algebra::model::trunc_div(old(self)@.entry(r2, c2), vector@[r2] as int)
            } else {
                old(self)@.entry(r2, c2)
            }) by {
                crate::linear_algebra::model::lemma_broadcast_rows_entry(
                    old(self)@,
                    int_seq(vector@),
                    gf,
                    r2,
                    c2,
                );
                crate::linear_algebra::model::lemma_position_in_bounds(old(self)@, r2, c2);
            }
        }
        Ok(())
    }

    /// The dot product of `vector` with every logical column: entry `c` of
    /// the result is `sum_j column_c[j] * vector[j]`. Rejects a vector whose
    /// length is not the logical row count.
    pub fn dot_vec(&self, vector: &Vec<i64>) -> (r: Result<Vec<i64>, MatrixError>)
        requires
            vector@.len() == self@.logical_rows() ==> forall|c: int|
                0 <= c < self@.logical_cols() ==> dot_fits(
                    #[trigger] self@.column(c),
                    int_seq(vector@),
                ),
        ensures
            match r {
                Ok(out) => vector@.len() == self@.logical_rows() && out@.len()
                    == self@.logical_cols() && (forall|c: int|
                    0 <= c < self@.logical_cols() ==> #[trigger] out@[c] as int == dot(
                        self@.column(c),
                        int_seq(vector@),
                    )),
                Err(e) => vector@.len() != self@.logical_rows() && e == (MatrixError::ShapeError {
                    expected: self@.logical_rows() as usize,
                    got: vector@.len() as usize,
                }),
            },
    {
        let lrows = self.rows();
        let lcols = self.cols();
        if vector.len() != lrows {
            return Err(MatrixError::ShapeError { expected: lrows, got: vector.len() });
        }
        let ghost w = int_seq(vector@);
        let mut out: Vec<i64> = Vec::new();
        let mut c: usize = 0;
        while c < lcols
            invariant
                lrows == self@.logical_rows(),
                lcols == self@.logical_cols(),
                vector@.len() == lrows,
                w == int_seq(vector@),
                forall|c2: int|
                    0 <= c2 < lcols ==> dot_fits(#[trigger] self@.column(c2), w),
                c <= lcols,
                out@.len() == c,
                forall|c2: int|
                    0 <= c2 < c ==> #[trigger] out@[c2] as int == dot(self@.column(c2), w),
            decreases lcols - c,
        {
            let ghost column = self@.column(c as int);
            let ghost prods = products(column, w);
            let mut acc: i64 = 0;
            let mut j: usize = 0;
            proof {
                assert(prods.take(0) =~= Seq::<int>::empty());
            }
            while j < lrows
                invariant
                    lrows == self@.logical_rows(),
                    lcols == self@.logical_cols(),
                    vector@.len() == lrows,
                    w == int_seq(vector@),
                    c < lcols,
                    column == self@.column(c as int),
                    prods == products(column, w),
                    dot_fits(column, w),
                    j <= lrows,
                    acc as int == seq_sum(prods.take(j as int)),
                decreases lrows - j,
            {
                proof {
                    assert(fits_i64(column[j as int] * w[j as int]));
                    assert(fits_i64(seq_sum(prods.take(j as int + 1))));
                    crate::linear_algebra::model::lemma_seq_sum_take_succ(prods, j as int);
                    assert(prods[j as int] == column[j as int] * w[j as int]);
                }
                let prod = self.at(j, c) * vector[j];
                acc = acc + prod;
                j = j + 1;
            }
            proof {
                crate::linear_algebra::model::lemma_seq_sum_take_all(prods);
                assert(prods.take(prods.len() as int) == prods.take(lrows as int));
            }
            out.push(acc);
            c = c + 1;
        }
        Ok(out)
    }

    /// The sum of every stored value.
    pub fn sum(&self) -> (s: i64)
        requires
            seq_sum_fits(self@.flatt),
        ensures
            s as int == seq_sum(self@.flatt),
    {
        let n = self.matrix_flatt.len();
        let mut acc: i64 = 0;
        let mut k: usize = 0;
        proof {
            assert(self@.flatt.take(0) =~= Seq::<int>::empty());
        }
        while k < n
            invariant
                n == self.matrix_flatt@.len(),
                seq_sum_fits(self@.flatt),
                self@.flatt.len() == n,
                k <= n,
                acc as int == seq_sum(self@.flatt.take(k as int)),
            decreases n - k,
        {
            proof {
                assert(fits_i64(seq_sum(self@.flatt.take(k as int + 1))));
                crate::linear_algebra::model::lemma_seq_sum_take_succ(self@.flatt, k as int);
                assert(self@.flatt[k as int] == self.matrix_flatt@[k as int] as int);
            }
            acc = acc + self.matrix_flatt[k];
            k = k + 1;
        }
        proof {
            crate::linear_algebra::model::lemma_seq_sum_take_all(self@.flatt);
        }
        acc
    }

    /// The per-row sums: entry `r` of the result is the sum of logical row
    /// `r`.
    pub fn sum_vec(&self) -> (out: Vec<i64>)
        requires
            forall|r2: int|
                0 <= r2 < self@.logical_rows() ==> seq_sum_fits(#[trigger] self@.row_at(r2)),
        ensures
            out@.len() == self@.logical_rows(),
            forall|r2: int|
                0 <= r2 < self@.logical_rows() ==> #[trigger] out@[r2] as int == seq_sum(
                    self@.row_at(r2),
                ),
    {
        let lrows = self.rows();
        let lcols = self.cols();
        let mut out: Vec<i64> = Vec::new();
        let mut r: usize = 0;
        while r < lrows
            invariant
                lrows == self@.logical_rows(),
                lcols == self@.logical_cols(),
                forall|r2: int|
                    0 <= r2 < lrows ==> seq_sum_fits(#[trigger] self@.row_at(r2)),
                r <= lrows,
                out@.len() == r,
                forall|r2: int|
                    0 <= r2 < r ==> #[trigger] out@[r2] as int == seq_sum(self@.row_at(r2)),
            decreases lrows - r,
        {
            let ghost this_row = self@.row_at(r as int);
            let mut acc: i64 = 0;
            let mut cc: usize = 0;
            proof {
                assert(this_row.take(0) =~= Seq::<int>::empty());
            }
            while cc < lcols
                invariant
                    lrows == self@.logical_rows(),
                    lcols == self@.logical_cols(),
                    r < lrows,
                    this_row == self@.row_at(r as int),
                    seq_sum_fits(this_row),
                    cc <= lcols,
                    acc as int == seq_sum(this_row.take(cc as int)),
                decreases lcols - cc,
            {
                proof {
                    assert(fits_i64(seq_sum(this_row.take(cc as int + 1))));
                    crate::linear_algebra::model::lemma_seq_sum_take_succ(this_row, cc as int);
                    assert(this_row[cc as int] == self@.entry(r as int, cc as int));
                }
                acc = acc + self.at(r, cc);
                cc = cc + 1;
            }
            proof {
                crate::linear_algebra::model::lemma_seq_sum_take_all(this_row);
                assert(this_row.take(this_row.len() as int) == this_row.take(lcols as int));
            }
            out.push(acc);
            r = r + 1;
        }
        out
    }

    /// The submatrix with logical row `row` and logical column `col`
    /// deleted, in untransposed orientation. Used by the determinant.
    fn finde_sub(&self, row: usize, col: usize) -> (r: Matrix)
        requires
            row < self@.logical_rows(),
            col < self@.logical_cols(),
        ensures
            r@.wf(),
            r@.transposed == false,
            r@.cols == self@.logical_cols() - 1,
            r@.rows == self@.logical_rows() - 1,
            r@.grid() == minor(self@.grid(), row as int, col as int),
    {
        let lrows = self.rows();
        let lcols = self.cols();
        let mut flatt: Vec<i64> = Vec::new();
        let mut c2: usize = 0;
        while c2 < lcols - 1
            invariant
                row < lrows,
                col < lcols,
                lrows == self@.logical_rows(),
                lcols == self@.logical_cols(),
                c2 <= lcols - 1,
                flatt@.len() == c2 * (lrows - 1),
                forall|cc: int, rr: int|
                    0 <= cc < c2 && 0 <= rr < lrows - 1 ==> #[trigger] flatt@[cc * (lrows - 1)
                        + rr] as int == self@.entry(
                        rr + (if rr >= row { 1int } else { 0int }),
                        cc + (if cc >= col { 1int } else { 0int }),
                    ),
            decreases lcols - 1 - c2,
        {
            let src_c = if c2 >= col {
                c2 + 1
            } else {
                c2
            };
            let mut r2: usize = 0;
            while r2 < lrows - 1
                invariant
                    row < lrows,
                    col < lcols,
                    lrows == self@.logical_rows(),
                    lcols == self@.logical_cols(),
                    c2 < lcols - 1,
                    src_c == c2 + (if c2 >= col { 1int } else { 0int }),
                    r2 <= lrows - 1,
                    flatt@.len() == c2 * (lrows - 1) + r2,
                    forall|cc: int, rr: int|
                        0 <= cc < c2 && 0 <= rr < lrows - 1 ==> #[trigger] flatt@[cc * (lrows - 1)
                            + rr] as int == self@.entry(
                            rr + (if rr >= row { 1int } else { 0int }),
                            cc + (if cc >= col { 1int } else { 0int }),
                        ),
                    forall|rr: int|
                        0 <= rr < r2 ==> #[trigger] flatt@[c2 * (lrows - 1) + rr] as int
                            == self@.entry(
                            rr + (if rr >= row { 1int } else { 0int }),
                            c2 + (if c2 >= col { 1int } else { 0int }),
                        ),
                decreases lrows - 1 - r2,
            {
                let src_r = if r2 >= row {
                    r2 + 1
                } else {
                    r2
                };
                flatt.push(self.at(src_r, src_c));
                proof {
                    assert forall|cc: int, rr: int|
                        0 <= cc < c2 && 0 <= rr < lrows - 1 implies #[trigger] flatt@[cc * (lrows
                        - 1) + rr] as int == self@.entry(
                        rr + (if rr >= row { 1int } else { 0int }),
                        cc + (if cc >= col { 1int } else { 0int }),
                    ) by {
                        assert(cc * (lrows as int - 1) + rr < c2 * (lrows as int - 1))
                            by (nonlinear_arith)
                            requires
                                0 <= cc < c2,
                                0 <= rr < lrows - 1,
                        ;
                    }
                }
                r2 = r2 + 1;
            }
            proof {
                assert((c2 as int + 1) * (lrows as int - 1) == c2 as int * (lrows as int - 1)
                    + (lrows as int - 1)) by (nonlinear_arith);
            }
            c2 = c2 + 1;
        }
        let m = Matrix { cols: lcols - 1, rows: lrows - 1, matrix_flatt: flatt, is_transpose: false };
        proof {
            let target = minor(self@.grid(), row as int, col as int);
            self@.grid().remove_ensures(col as int);
            assert forall|cc: int| 0 <= cc < lcols - 1 implies m@.grid()[cc] == target[cc] by {
                let src_cc = cc + (if cc >= col { 1int } else { 0int });
                let outer = self@.grid().remove(col as int)[cc];
                assert(outer == self@.grid()[src_cc]);
                outer.remove_ensures(row as int);
                assert forall|rr: int| 0 <= rr < lrows - 1 implies m@.column(cc)[rr] == target[cc][rr] by {
                    let src_rr = rr + (if rr >= row { 1int } else { 0int });
                    assert(m@.wf());
                    lemma_position_in_bounds(m@, rr, cc);
                    assert(m@.entry(rr, cc) == flatt@[cc * (lrows as int - 1) + rr] as int);
                    assert(target[cc] == outer.remove(row as int));
                    assert(outer.remove(row as int)[rr] == outer[src_rr]);
                    assert(outer[src_rr] == self@.entry(src_rr, src_cc));
                }
                assert(m@.column(cc) =~= target[cc]);
                assert(m@.grid()[cc] == m@.column(cc));
            }
            assert(m@.grid() =~= target);
        }
        m
    }

    /// The determinant, by cofactor expansion along logical row 0 (the
    /// two-by-two case is the base). Rejects non-square matrices with
    /// `NotSquare` and a 1-by-1 matrix with `DegenerateMatrix`; the empty
    /// matrix has determinant 0. Runtime grows factorially with the
    /// dimension, which is acceptable for the intended small matrices.
    pub fn det(&self) -> (r: Result<i64, MatrixError>)
        requires
            (self@.logical_cols() == self@.logical_rows() && self@.logical_rows() >= 2)
                ==> det_fits(self@.grid()),
        ensures
            match r {
                Ok(v) => self@.logical_cols() == self@.logical_rows() && self@.logical_rows() != 1
                    && v as int == det_of(self@.grid()),
                Err(e) => if self@.logical_cols() != self@.logical_rows() {
                    e == MatrixError::NotSquare
                } else {
                    self@.logical_rows() == 1 && e == MatrixError::DegenerateMatrix
                },
            },
        decreases self@.logical_rows(),
    {
        let lrows = self.rows();
        let lcols = self.cols();
        if lcols != lrows {
            return Err(MatrixError::NotSquare);
        }
        if lrows == 1 {
            return Err(MatrixError::DegenerateMatrix);
        }
        if lrows == 0 {
            return Ok(0);
        }
        let ghost g = self@.grid();
        if lrows == 2 {
            proof {
                assert(g[0] == self@.column(0) && g[1] == self@.column(1));
                assert(g[0][0] == self@.entry(0, 0) && g[1][1] == self@.entry(1, 1));
                assert(g[0][1] == self@.entry(1, 0) && g[1][0] == self@.entry(0, 1));
            }
            let v = self.at(0, 0) * self.at(1, 1) - self.at(1, 0) * self.at(0, 1);
            return Ok(v);
        }
        let n = lcols;
        let mut sum: i64 = 0;
        let mut sign_pos = true;
        let mut c: usize = 0;
        while c < n
            invariant
                n == lcols,
                lcols == self@.logical_cols(),
                lrows == self@.logical_rows(),
                lcols == lrows,
                n >= 3,
                g == self@.grid(),
                g.len() == n,
                det_fits(g),
                det_sum_fits(g, n as int),
                c <= n,
                sign_pos == (cofactor_sign(c as int) == 1),
                sum as int == det_sum(g, c as int),
            decreases n - c,
        {
            let sub = self.finde_sub(0, c);
            proof {
                lemma_det_sum_fits_unroll(g, n as int, c as int);
                assert(sub@.grid() == minor(g, 0, c as int));
                assert(sub@.logical_cols() == n - 1 && sub@.logical_rows() == n - 1);
            }
            let sd = match sub.det() {
                Ok(v) => v,
                Err(_) => 0,
            };
            let e = self.at(0, c);
            proof {
                assert(g[c as int][0] == self@.entry(0, c as int));
                assert(fits_i64(g[c as int][0] * det_of(minor(g, 0, c as int))));
                assert(fits_i64(det_term(g, c as int)));
                assert(fits_i64(det_sum(g, c as int + 1)));
            }
            let prod = e * sd;
            let term = if sign_pos {
                prod
            } else {
                proof {
                    let a = g[c as int][0];
                    let b = det_of(minor(g, 0, c as int));
                    assert((-1int) * a * b == -(a * b)) by (nonlinear_arith);
                    assert(det_term(g, c as int) == -(a * b));
                }
                -prod
            };
            sum = sum + term;
            proof {
                assert(cofactor_sign(c as int + 1) == (if cofactor_sign(c as int) == 1 {
                    -1int
                } else {
                    1int
                }));
            }
            sign_pos = !sign_pos;
            c = c + 1;
        }
        proof {
            assert(det_of(g) == det_sum(g, n as int));
        }
        Ok(sum)
    }

    /// Would invert the matrix; inversion is intentionally not implemented.
    /// Still rejects non-square and 1-by-1 matrices first, and a matrix
    /// whose determinant is zero with `SingularMatrix`; otherwise reports
    /// `NotImplemented`. The matrix is never changed.
    pub fn inv(&mut self) -> (r: Result<(), MatrixError>)
        requires
            (old(self)@.logical_cols() == old(self)@.logical_rows() && old(self)@.logical_rows()
                >= 2) ==> det_fits(old(self)@.grid()),
        ensures
            final(self)@ == old(self)@,
            match r {
                Ok(()) => false,
                Err(e) => if old(self)@.logical_cols() != old(self)@.logical_rows() {
                    e == MatrixError::NotSquare
                } else if old(self)@.logical_rows() == 1 {
                    e == MatrixError::DegenerateMatrix
                } else if det_of(old(self)@.grid()) == 0 {
                    e == MatrixError::SingularMatrix
                } else {
                    e == MatrixError::NotImplemented
                },
            },
    {
        let d = match self.det() {
            Ok(v) => v,
            Err(e) => {
                return Err(e);
            },
        };
        if d == 0 {
            return Err(MatrixError::SingularMatrix);
        }
        Err(MatrixError::NotImplemented)
    }

    /// Would compute an eigenvalue; intentionally not implemented. Still
    /// rejects non-square and 1-by-1 matrices first.
    pub fn eigen_val(&self) -> (r: Result<i64, MatrixError>)
        ensures
            match r {
                Ok(v) => false,
                Err(e) => if self@.logical_cols() != self@.logical_rows() {
                    e == MatrixError::NotSquare
                } else if self@.logical_rows() == 1 {
                    e == MatrixError::DegenerateMatrix
                } else {
                    e == MatrixError::NotImplemented
                },
            },
    {
        if self.cols() != self.rows() {
            return Err(MatrixError::NotSquare);
        }
        if self.rows() == 1 {
            return Err(MatrixError::DegenerateMatrix);
        }
        Err(MatrixError::NotImplemented)
    }

    /// Would compute an eigenvector; intentionally not implemented. Still
    /// rejects non-square and 1-by-1 matrices first.
    pub fn eigen_vec(&self) -> (r: Result<Vec<i64>, MatrixError>)
        ensures
            match r {
                Ok(v) => false,
                Err(e) => if self@.logical_cols() != self@.logical_rows() {
                    e == MatrixError::NotSquare
                } else if self@.logical_rows() == 1 {
                    e == MatrixError::DegenerateMatrix
                } else {
                    e == MatrixError::NotImplemented
                },
            },
    {
        if self.cols() != self.rows() {
            return Err(MatrixError::NotSquare);
        }
        if self.rows() == 1 {
            return Err(MatrixError::DegenerateMatrix);
        }
        Err(MatrixError::NotImplemented)
    }

    /// Would compute the matrix product; intentionally not implemented.
    /// Still rejects a logical shape mismatch first, rows before columns.
    pub fn dot_mat(&self, other: &Matrix) -> (r: Result<(), MatrixError>)
        ensures
            match r {
                Ok(()) => false,
                Err(e) => if self@.logical_rows() != other@.logical_rows() {
                    e == (MatrixError::ShapeError {
                        expected: self@.logical_rows() as usize,
                        got: other@.logical_rows() as usize,
                    })
                } else if self@.logical_cols() != other@.logical_cols() {
                    e == (MatrixError::ShapeError {
                        expected: self@.logical_cols() as usize,
                        got: other@.logical_cols() as usize,
                    })
                } else {
                    e == MatrixError::NotImplemented
                },
            },
    {
        if self.rows() != other.rows() {
            return Err(MatrixError::ShapeError { expected: self.rows(), got: other.rows() });
        }
        if self.cols() != other.cols() {
            return Err(MatrixError::ShapeError { expected: self.cols(), got: other.cols() });
        }
        Err(MatrixError::NotImplemented)
    }

    /// The fixed binary export form: the logical row count, then the
    /// logical column count, then every value of the logical flattening,
    /// each as the little-endian bit pattern of the nearest 32-bit float.
    pub fn bytes(&self) -> (r: Vec<u8>)
        ensures
            r@ == f32_le_bytes(self@.logical_rows() as int) + f32_le_bytes(
                self@.logical_cols() as int,
            ) + flatt_bytes(self@.flattened()),
    {
        let mut out: Vec<u8> = Vec::new();
        let rbits = crate::linear_algebra::fbits::f32_bits_usize(self.rows());
        crate::linear_algebra::fbits::push_le_bytes(&mut out, rbits);
        let cbits = crate::linear_algebra::fbits::f32_bits_usize(self.cols());
        crate::linear_algebra::fbits::push_le_bytes(&mut out, cbits);
        let ghost prefix = f32_le_bytes(self@.logical_rows() as int) + f32_le_bytes(
            self@.logical_cols() as int,
        );
        proof {
            assert(out@ =~= prefix);
        }
        let flatt = self.matrix_flatt();
        let ghost lf = self@.flattened();
        let n = flatt.len();
        let mut k: usize = 0;
        proof {
            assert(lf.take(0) =~= Seq::<int>::empty());
            assert(out@ =~= prefix + flatt_bytes(lf.take(0)));
        }
        while k < n
            invariant
                int_seq(flatt@) == lf,
                n == flatt@.len(),
                lf.len() == n,
                prefix == f32_le_bytes(self@.logical_rows() as int) + f32_le_bytes(
                    self@.logical_cols() as int,
                ),
                lf == self@.flattened(),
                k <= n,
                out@ == prefix + flatt_bytes(lf.take(k as int)),
            decreases n - k,
        {
            let bits = crate::linear_algebra::fbits::f32_bits_i64(flatt[k]);
            crate::linear_algebra::fbits::push_le_bytes(&mut out, bits);
            proof {
                let t = lf.take(k as int + 1);
                assert(t.drop_last() =~= lf.take(k as int));
                assert(t.last() == lf[k as int]);
                assert(flatt_bytes(t) == flatt_bytes(lf.take(k as int)) + f32_le_bytes(
                    lf[k as int],
                ));
                assert(out@ =~= prefix + flatt_bytes(lf.take(k as int + 1)));
            }
            k = k + 1;
        }
        proof {
            assert(lf.take(n as int) =~= lf);
        }
        out
    }

    /// A `cols` by `rows` matrix filled from the pseudo-random stream drawn
    /// from `seed`: cell after cell of the backing buffer takes the next
    /// stream element. Equal seeds give equal matrices.
    pub fn new_rand(cols: usize, rows: usize, seed: u64) -> (m: Matrix)
        requires
            cols * rows <= usize::MAX,
        ensures
            m@.wf(),
            m@.cols == cols,
            m@.rows == rows,
            m@.transposed == false,
            forall|k: int|
                0 <= k < cols * rows ==> #[trigger] m@.flatt[k] == rand_elem(seed as nat, k as nat),
    {
        let total = cols * rows;
        let mut flatt: Vec<i64> = Vec::new();
        let mut state = seed;
        let mut k: usize = 0;
        while k < total
            invariant
                k <= total,
                flatt@.len() == k,
                state as nat == lcg_iter(seed as nat, k as nat),
                forall|t: int|
                    0 <= t < k ==> #[trigger] flatt@[t] as int == rand_elem(seed as nat, t as nat),
            decreases total - k,
        {
            state = crate::linear_algebra::rng::lcg_step(state);
            proof {
                assert(state as nat == lcg_iter(seed as nat, (k + 1) as nat));
            }
            flatt.push(crate::linear_algebra::rng::lcg_elem(state));
            k = k + 1;
        }
        Matrix { cols, rows, matrix_flatt: flatt, is_transpose: false }
    }

    /// Applies a pure value-to-value function to every stored value in
    /// place: afterwards every cell holds an output of the function for the
    /// cell's old value.
    pub fn apply_func_val<F: Fn(i64) -> i64>(&mut self, lamda: &F)
        requires
            forall|x: i64| call_requires(*lamda, (x,)),
        ensures
            final(self)@.cols == old(self)@.cols,
            final(self)@.rows == old(self)@.rows,
            final(self)@.transposed == old(self)@.transposed,
            final(self)@.flatt.len() == old(self)@.flatt.len(),
            forall|k: int|
                0 <= k < old(self)@.flatt.len() ==> #[trigger] call_ensures(
                    *lamda,
                    (old(self)@.flatt[k] as i64,),
                    final(self)@.flatt[k] as i64,
                ),
    {
        proof {
            use_type_invariant(&*self);
        }
        let n = self.matrix_flatt.len();
        let mut out: Vec<i64> = Vec::new();
        let mut k: usize = 0;
        while k < n
            invariant
                n == self.matrix_flatt@.len(),
                self.matrix_flatt@ == old(self).matrix_flatt@,
                forall|x: i64| call_requires(*lamda, (x,)),
                k <= n,
                out@.len() == k,
                forall|t: int|
                    0 <= t < k ==> #[trigger] call_ensures(
                        *lamda,
                        (old(self)@.flatt[t] as i64,),
                        out@[t],
                    ),
            decreases n - k,
        {
            let x = self.matrix_flatt[k];
            let y = lamda(x);
            proof {
                assert(x == old(self)@.flatt[k as int] as i64);
            }
            out.push(y);
            k = k + 1;
        }
        self.matrix_flatt = out;
    }
}

impl PartialEq for Matrix {
    /// Two matrices are equal when their logical shapes and their logical
    /// flattenings agree; orientation flags and physical layouts may differ.
    fn eq(&self, other: &Matrix) -> (r: bool) {
        if self.cols() != other.cols() {
            return false;
        }
        if self.rows() != other.rows() {
            return false;
        }
        let a = self.matrix_flatt();
        let b = other.matrix_flatt();
        let n = a.len();
        let mut k: usize = 0;
        while k < n
            invariant
                int_seq(a@) == self@.flattened(),
                int_seq(b@) == other@.flattened(),
                n == a@.len(),
                b@.len() == n,
                k <= n,
                forall|t: int| 0 <= t < k ==> #[trigger] a@[t] == b@[t],
            decreases n - k,
        {
            if a[k] != b[k] {
                proof {
                    assert(self@.flattened()[k as int] != other@.flattened()[k as int]);
                }
                return false;
            }
            k = k + 1;
        }
        proof {
            assert(self@.flattened() =~= other@.flattened());
        }
        true
    }
}

impl vstd::std_specs::cmp::PartialEqSpecImpl for Matrix {
    open spec fn obeys_eq_spec() -> bool {
        true
    }

    open spec fn eq_spec(&self, other: &Matrix) -> bool {
        self@.logical_cols() == other@.logical_cols() && self@.logical_rows()
            == other@.logical_rows() && self@.flattened() == other@.flattened()
    }
}

} // verus!
