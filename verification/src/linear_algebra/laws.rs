//! The algebraic laws of the matrix model, stated and proved once for all
//! values. The executable operations promise in their contracts that they
//! realize the model operations these laws speak about.

use vstd::prelude::*;

use crate::linear_algebra::model::MatrixView;

verus! {

/// Shape invariant: the logical flattening of a well-formed matrix has
/// exactly one value per logical cell.
pub proof fn lemma_flattened_length(v: MatrixView)
    requires
        v.wf(),
    ensures
        v.flattened().len() == v.logical_cols() * v.logical_rows(),
{
}

/// Transpose involution: transposing twice restores the original value,
/// its orientation flag and with it every logical entry.
pub proof fn lemma_transpose_involution(v: MatrixView)
    ensures
        v.toggled().toggled() == v,
{
}

/// Transpose swap law: one transpose swaps the logical dimensions and moves
/// entry `(c, r)` to `(r, c)`.
pub proof fn lemma_transpose_swap(v: MatrixView)
    ensures
        v.toggled().logical_cols() == v.logical_rows(),
        v.toggled().logical_rows() == v.logical_cols(),
        forall|r: int, c: int|
            0 <= r < v.toggled().logical_rows() && 0 <= c < v.toggled().logical_cols()
                ==> #[trigger] v.toggled().entry(r, c) == v.entry(c, r),
{
}

/// Arithmetic identity: broadcasting `+ 0` over a matrix is a no-op.
pub proof fn lemma_add_scalar_zero(v: MatrixView)
    ensures
        v.scalar_add(0) == v,
{
    assert(v.scalar_add(0).flatt =~= v.flatt);
    assert(v.scalar_add(0) =~= v);
}

/// Arithmetic identity: broadcasting `* 1` over a matrix is a no-op.
pub proof fn lemma_mul_scalar_one(v: MatrixView)
    ensures
        v.scalar_mul(1) == v,
{
    assert(v.scalar_mul(1).flatt =~= v.flatt);
    assert(v.scalar_mul(1) =~= v);
}

/// Matrix add/sub inverse: elementwise adding a matrix and then subtracting
/// it again reconstructs an untransposed matrix exactly.
pub proof fn lemma_add_sub_roundtrip(m: MatrixView, w: MatrixView)
    requires
        m.wf(),
        w.wf(),
        !m.transposed,
        m.logical_cols() == w.logical_cols(),
        m.logical_rows() == w.logical_rows(),
    ensures
        m.combined(w, |x: int, y: int| x + y).combined(w, |x: int, y: int| x - y) == m,
{
    let sum = m.combined(w, |x: int, y: int| x + y);
    let back = sum.combined(w, |x: int, y: int| x - y);
    crate::linear_algebra::model::lemma_flattened_untransposed(m);
    assert(sum.wf()) by {
        assert(sum.flatt.len() == m.flattened().len());
    }
    crate::linear_algebra::model::lemma_flattened_untransposed(sum);
    assert(back.flatt =~= m.flatt) by {
        assert(sum.flattened() == sum.flatt);
        assert(forall|k: int|
            0 <= k < m.flatt.len() ==> #[trigger] back.flatt[k] == (m.flatt[k] + w.flattened()[k])
                - w.flattened()[k]);
    }
    assert(back =~= m);
}

} // verus!
