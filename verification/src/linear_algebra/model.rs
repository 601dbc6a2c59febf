//! The mathematical model of a matrix.
//!
//! A `Matrix` abstracts to a [`MatrixView`]: the physical dimensions, the
//! physical column-major buffer as a sequence of unbounded integers, and the
//! orientation flag. Every contract of the executable code is stated over
//! this model. The determinant, the elementwise combinators and the
//! no-overflow side conditions of the executable operations are all defined
//! here as well.

use vstd::prelude::*;

verus! {

/// The abstract value of a matrix.
///
/// `cols` and `rows` are the *physical* dimensions: `flatt` stores the
/// physical column `c` contiguously at positions `c * rows .. (c + 1) * rows`.
/// `transposed` swaps the meaning of "row" and "column" for every logical
/// accessor without touching the buffer.
#[verifier::ext_equal]
pub ghost struct MatrixView {
    pub cols: nat,
    pub rows: nat,
    pub flatt: Seq<int>,
    pub transposed: bool,
}

impl MatrixView {
    /// The shape invariant: the buffer holds exactly one value per cell.
    pub open spec fn wf(self) -> bool {
        self.flatt.len() == self.cols * self.rows
    }

    /// The logical column count: swapped by the transpose flag.
    pub open spec fn logical_cols(self) -> nat {
        if self.transposed {
            self.rows
        } else {
            self.cols
        }
    }

    /// The logical row count: swapped by the transpose flag.
    pub open spec fn logical_rows(self) -> nat {
        if self.transposed {
            self.cols
        } else {
            self.rows
        }
    }

    /// The physical buffer position that holds logical entry `(r, c)`.
    pub open spec fn position(self, r: int, c: int) -> int {
        if self.transposed {
            r * self.rows + c
        } else {
            c * self.rows + r
        }
    }

    /// The value of logical entry `(r, c)`.
    pub open spec fn entry(self, r: int, c: int) -> int {
        self.flatt[self.position(r, c)]
    }

    /// Logical column `c`, top to bottom.
    pub open spec fn column(self, c: int) -> Seq<int> {
        Seq::new(self.logical_rows(), |r: int| self.entry(r, c))
    }

    /// Logical row `r`, left to right.
    pub open spec fn row_at(self, r: int) -> Seq<int> {
        Seq::new(self.logical_cols(), |c: int| self.entry(r, c))
    }

    /// The matrix as its sequence of logical columns.
    pub open spec fn grid(self) -> Seq<Seq<int>> {
        Seq::new(self.logical_cols(), |c: int| self.column(c))
    }

    /// The logical column-major flattening: the logical columns, concatenated.
    pub open spec fn flattened(self) -> Seq<int> {
        Seq::new(
            self.logical_cols() * self.logical_rows(),
            |k: int|
                self.entry(
                    k % self.logical_rows() as int,
                    k / self.logical_rows() as int,
                ),
        )
    }

    /// The same buffer under the opposite orientation.
    pub open spec fn toggled(self) -> MatrixView {
        MatrixView { transposed: !self.transposed, ..self }
    }

    /// The result of broadcasting `x + s` over the buffer.
    pub open spec fn scalar_add(self, s: int) -> MatrixView {
        MatrixView { flatt: self.flatt.map_values(|x: int| x + s), ..self }
    }

    /// The result of broadcasting `x - s` over the buffer.
    pub open spec fn scalar_sub(self, s: int) -> MatrixView {
        MatrixView { flatt: self.flatt.map_values(|x: int| x - s), ..self }
    }

    /// The result of broadcasting `x * s` over the buffer.
    pub open spec fn scalar_mul(self, s: int) -> MatrixView {
        MatrixView { flatt: self.flatt.map_values(|x: int| x * s), ..self }
    }

    /// The result of broadcasting truncating division by `s` over the buffer.
    pub open spec fn scalar_div(self, s: int) -> MatrixView {
        MatrixView { flatt: self.flatt.map_values(|x: int| trunc_div(x, s)), ..self }
    }

    /// The matrix whose logical flattening combines the logical flattenings
    /// of `self` and `other` by `f`, in `other`'s logical shape, with the
    /// transpose flag cleared.
    pub open spec fn combined(self, other: MatrixView, f: spec_fn(int, int) -> int) -> MatrixView {
        MatrixView {
            cols: other.logical_cols(),
            rows: other.logical_rows(),
            flatt: zip_map(self.flattened(), other.flattened(), f),
            transposed: false,
        }
    }
}

/// `a` and `b` combined pointwise by `f` (over the length of `a`).
pub open spec fn zip_map(a: Seq<int>, b: Seq<int>, f: spec_fn(int, int) -> int) -> Seq<int> {
    Seq::new(a.len(), |k: int| f(a[k], b[k]))
}

/// A sequence of `i64` values, read as mathematical integers.
pub open spec fn int_seq(s: Seq<i64>) -> Seq<int> {
    s.map_values(|x: i64| x as int)
}

/// Whether `x` is representable as an `i64`.
pub open spec fn fits_i64(x: int) -> bool {
    i64::MIN as int <= x <= i64::MAX as int
}

/// Division truncating toward zero, as the machine divides signed integers.
pub open spec fn trunc_div(a: int, b: int) -> int {
    if a >= 0 && b >= 0 {
        a / b
    } else if a < 0 && b < 0 {
        (-a) / (-b)
    } else if a < 0 {
        -((-a) / b)
    } else {
        -(a / (-b))
    }
}

/// The sum of a sequence of integers, folded from the left.
pub open spec fn seq_sum(s: Seq<int>) -> int
    decreases s.len(),
{
    if s.len() == 0 {
        0
    } else {
        seq_sum(s.drop_last()) + s.last()
    }
}

/// Whether every partial sum of `s`, taken left to right, fits in an `i64`.
pub open spec fn seq_sum_fits(s: Seq<int>) -> bool {
    forall|k: int| 0 <= k <= s.len() ==> fits_i64(seq_sum(#[trigger] s.take(k)))
}

/// The pointwise products of two equally long sequences.
pub open spec fn products(a: Seq<int>, b: Seq<int>) -> Seq<int>
    recommends
        a.len() == b.len(),
{
    Seq::new(a.len(), |k: int| a[k] * b[k])
}

/// The dot product of two equally long sequences.
pub open spec fn dot(a: Seq<int>, b: Seq<int>) -> int
    recommends
        a.len() == b.len(),
{
    seq_sum(products(a, b))
}

/// Whether the machine can compute `dot(a, b)` in `i64` arithmetic, left to
/// right: every product and every partial sum is representable.
pub open spec fn dot_fits(a: Seq<int>, b: Seq<int>) -> bool {
    (forall|k: int| 0 <= k < a.len() ==> fits_i64(#[trigger] (a[k] * b[k]))) && seq_sum_fits(
        products(a, b),
    )
}

/// The minor of a matrix given as its columns: column `c` and row `r` deleted.
pub open spec fn minor(m: Seq<Seq<int>>, r: int, c: int) -> Seq<Seq<int>> {
    m.remove(c).map_values(|column: Seq<int>| column.remove(r))
}

/// The sign of the cofactor of column `c` in the expansion along row 0.
pub open spec fn cofactor_sign(c: int) -> int {
    if c % 2 == 0 {
        1
    } else {
        -1
    }
}

/// The determinant of a square matrix given as its columns, by cofactor
/// expansion along row 0, with the two-column case as the base.
pub open spec fn det_of(m: Seq<Seq<int>>) -> int
    decreases m.len(), 2int, 0int,
{
    if m.len() == 2 {
        m[0][0] * m[1][1] - m[0][1] * m[1][0]
    } else {
        det_sum(m, m.len() as int)
    }
}

/// The sum of the first `k` terms of the cofactor expansion along row 0.
pub open spec fn det_sum(m: Seq<Seq<int>>, k: int) -> int
    decreases m.len(), 1int, k,
    when k <= m.len()
{
    if k <= 0 {
        0
    } else {
        det_sum(m, k - 1) + det_term(m, k - 1)
    }
}

/// Term `c` of the cofactor expansion along row 0.
pub open spec fn det_term(m: Seq<Seq<int>>, c: int) -> int
    decreases m.len(), 0int, 0int,
    when 0 <= c < m.len()
{
    cofactor_sign(c) * m[c][0] * det_of(minor(m, 0, c))
}

/// Whether the machine can run the cofactor expansion in `i64` arithmetic:
/// every product, every signed term, every partial sum and every recursive
/// sub-determinant is representable.
pub open spec fn det_fits(m: Seq<Seq<int>>) -> bool
    decreases m.len(), 2int, 0int,
{
    if m.len() == 2 {
        fits_i64(m[0][0] * m[1][1]) && fits_i64(m[0][1] * m[1][0]) && fits_i64(det_of(m))
    } else {
        det_sum_fits(m, m.len() as int)
    }
}

/// The overflow side conditions of the first `k` cofactor terms.
pub open spec fn det_sum_fits(m: Seq<Seq<int>>, k: int) -> bool
    decreases m.len(), 1int, k,
    when k <= m.len()
{
    if k <= 0 {
        true
    } else {
        det_sum_fits(m, k - 1) && det_fits(minor(m, 0, k - 1)) && fits_i64(
            m[k - 1][0] * det_of(minor(m, 0, k - 1)),
        ) && fits_i64(det_term(m, k - 1)) && fits_i64(det_sum(m, k))
    }
}

/// An untransposed matrix's logical flattening is its physical buffer.
pub proof fn lemma_flattened_untransposed(v: MatrixView)
    requires
        v.wf(),
        !v.transposed,
    ensures
        v.flattened() == v.flatt,
{
    if v.rows == 0 {
        assert(v.flattened() =~= v.flatt);
    } else {
        assert forall|k: int| 0 <= k < v.flatt.len() implies v.flattened()[k] == v.flatt[k] by {
            let r = k % v.rows as int;
            let c = k / v.rows as int;
            vstd::arithmetic::div_mod::lemma_fundamental_div_mod(k, v.rows as int);
            assert(v.position(r, c) == c * v.rows + r);
        }
        assert(v.flattened() =~= v.flatt);
    }
}

/// The buffer position of an in-bounds logical cell is in bounds.
pub proof fn lemma_position_in_bounds(v: MatrixView, r: int, c: int)
    requires
        v.wf(),
        0 <= r < v.logical_rows(),
        0 <= c < v.logical_cols(),
    ensures
        0 <= v.position(r, c) < v.flatt.len(),
{
    if v.transposed {
        assert(r * v.rows + c < v.cols * v.rows) by (nonlinear_arith)
            requires
                0 <= r < v.cols,
                0 <= c < v.rows,
        ;
        assert(r * v.rows + c >= 0) by (nonlinear_arith)
            requires
                r >= 0,
                c >= 0,
                v.rows >= 0,
        ;
    } else {
        assert(c * v.rows + r < v.cols * v.rows) by (nonlinear_arith)
            requires
                0 <= c < v.cols,
                0 <= r < v.rows,
        ;
        assert(c * v.rows + r >= 0) by (nonlinear_arith)
            requires
                r >= 0,
                c >= 0,
                v.rows >= 0,
        ;
    }
}

/// Truncating division of a representable value by a nonzero divisor stays
/// representable, except for the excluded `i64::MIN / -1`.
pub proof fn lemma_trunc_div_fits(a: int, b: int)
    requires
        fits_i64(a),
        b != 0,
        !(a == i64::MIN as int && b == -1),
    ensures
        fits_i64(trunc_div(a, b)),
{
    let aa = if a >= 0 {
        a
    } else {
        -a
    };
    let bb = if b >= 0 {
        b
    } else {
        -b
    };
    vstd::arithmetic::div_mod::lemma_div_pos_is_pos(aa, bb);
    vstd::arithmetic::div_mod::lemma_div_nonincreasing(aa, bb);
    vstd::arithmetic::div_mod::lemma_div_basics(aa);
    if bb >= 2 {
        vstd::arithmetic::div_mod::lemma_div_is_ordered_by_denominator(aa, 2, bb);
    }
}

/// The case split of truncating division over the signs of its operands.
pub proof fn lemma_trunc_div_cases(a: int, b: int)
    requires
        b != 0,
    ensures
        a == 0 ==> trunc_div(a, b) == 0,
        a > 0 && b > 0 ==> trunc_div(a, b) == a / b,
        a < 0 && b < 0 ==> trunc_div(a, b) == (a * -1) / (b * -1),
        a < 0 && b > 0 ==> trunc_div(a, b) == ((a * -1) / b) * -1,
        a > 0 && b < 0 ==> trunc_div(a, b) == (a / (b * -1)) * -1,
{
    if a == 0 {
        if b >= 0 {
            vstd::arithmetic::div_mod::lemma_div_of0(b);
        } else {
            vstd::arithmetic::div_mod::lemma_div_of0(-b);
        }
    }
}

/// Cell `(r, c)` of the logical flattening sits at `c * logical_rows + r`.
pub proof fn lemma_flattened_index(v: MatrixView, r: int, c: int)
    requires
        0 <= r < v.logical_rows(),
        0 <= c < v.logical_cols(),
    ensures
        0 <= c * v.logical_rows() + r < v.flattened().len(),
        v.flattened()[c * v.logical_rows() + r] == v.entry(r, c),
{
    let lr = v.logical_rows() as int;
    let k = c * lr + r;
    assert(0 <= k < v.logical_cols() * lr) by (nonlinear_arith)
        requires
            0 <= r < lr,
            0 <= c < v.logical_cols(),
            k == c * lr + r,
    ;
    vstd::arithmetic::div_mod::lemma_fundamental_div_mod_converse(k, lr, c, r);
}

/// What one buffer position holds after broadcasting `w` over the rows:
/// cell `(r, c)` becomes `f(old value, w[r])`, except that the last logical
/// row and the last logical column are left untouched.
pub open spec fn broadcast_rows_at(
    v: MatrixView,
    w: Seq<int>,
    f: spec_fn(int, int) -> int,
    p: int,
) -> int {
    let r = if v.transposed {
        p / v.rows as int
    } else {
        p % v.rows as int
    };
    let c = if v.transposed {
        p % v.rows as int
    } else {
        p / v.rows as int
    };
    if r < v.logical_rows() - 1 && c < v.logical_cols() - 1 {
        f(v.flatt[p], w[r])
    } else {
        v.flatt[p]
    }
}

/// The whole buffer after broadcasting `w` over the rows.
pub open spec fn broadcast_rows(v: MatrixView, w: Seq<int>, f: spec_fn(int, int) -> int) -> Seq<
    int,
> {
    Seq::new(v.flatt.len(), |p: int| broadcast_rows_at(v, w, f, p))
}

/// Reads the broadcast buffer back through the cell mapping.
pub proof fn lemma_broadcast_rows_entry(
    v: MatrixView,
    w: Seq<int>,
    f: spec_fn(int, int) -> int,
    r: int,
    c: int,
)
    requires
        v.wf(),
        0 <= r < v.logical_rows(),
        0 <= c < v.logical_cols(),
    ensures
        broadcast_rows(v, w, f)[v.position(r, c)] == (if r < v.logical_rows() - 1 && c
            < v.logical_cols() - 1 {
            f(v.entry(r, c), w[r])
        } else {
            v.entry(r, c)
        }),
{
    lemma_position_in_bounds(v, r, c);
    if v.transposed {
        vstd::arithmetic::div_mod::lemma_fundamental_div_mod_converse(
            r * v.rows + c,
            v.rows as int,
            r,
            c,
        );
    } else {
        vstd::arithmetic::div_mod::lemma_fundamental_div_mod_converse(
            c * v.rows + r,
            v.rows as int,
            c,
            r,
        );
    }
}

/// Adding one element on the right adds its value to the sum.
pub proof fn lemma_seq_sum_take_succ(s: Seq<int>, k: int)
    requires
        0 <= k < s.len(),
    ensures
        seq_sum(s.take(k + 1)) == seq_sum(s.take(k)) + s[k],
{
    let t = s.take(k + 1);
    assert(t.drop_last() =~= s.take(k));
    assert(t.last() == s[k]);
}

/// The sum of a full sequence is the sum of its full prefix.
pub proof fn lemma_seq_sum_take_all(s: Seq<int>)
    ensures
        seq_sum(s.take(s.len() as int)) == seq_sum(s),
{
    assert(s.take(s.len() as int) =~= s);
}

/// Unrolls `det_sum_fits`: the side conditions of every term below `k`.
pub proof fn lemma_det_sum_fits_unroll(m: Seq<Seq<int>>, k: int, i: int)
    requires
        det_sum_fits(m, k),
        0 <= i < k <= m.len(),
    ensures
        det_fits(minor(m, 0, i)),
        fits_i64(m[i][0] * det_of(minor(m, 0, i))),
        fits_i64(det_term(m, i)),
        fits_i64(det_sum(m, i + 1)),
    decreases k,
{
    if i + 1 < k {
        lemma_det_sum_fits_unroll(m, k - 1, i);
    }
}

} // verus!
