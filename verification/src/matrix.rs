//! Fixed-shape matrices over any field, stored row-major.
//!
//! A matrix is a `rows x cols` rectangular grid whose storage length always
//! matches its declared dimensions.  Element-wise operations demand equal
//! shapes, and the matrix product demands that the left operand's column
//! count equal the right operand's row count; a mismatch is reported as a
//! dimension error, never computed around.

use crate::errors::AlgebraError;
use crate::field::{acc_model, Field};
use crate::poly::{models, pctx, pwf, same_pctx};
use vstd::prelude::*;

verus! {

/// A `rows x cols` matrix of field elements, stored row-major.
pub struct Matrix<F: Field> {
    v: Vec<F>,
    rows: usize,
    cols: usize,
}

impl<F: Field> View for Matrix<F> {
    type V = Seq<F>;

    closed spec fn view(&self) -> Seq<F> {
        self.v@
    }
}

/// The terms of one product entry: for output position `(i, j)`, term `k`
/// is `a[i][k] * b[k][j]`, over row-major storages with `ac` and `bc`
/// columns.
pub open spec fn matmul_terms<F: Field>(
    c: Seq<int>,
    a: Seq<Seq<int>>,
    b: Seq<Seq<int>>,
    ac: int,
    bc: int,
    i: int,
    j: int,
) -> Seq<Seq<int>> {
    Seq::new(ac as nat, |k: int| F::mul_model(c, a[i * ac + k], b[k * bc + j]))
}

/// One entry of the matrix product: the sum over `k` of
/// `a[i][k] * b[k][j]`.
pub open spec fn matmul_entry<F: Field>(
    c: Seq<int>,
    a: Seq<Seq<int>>,
    b: Seq<Seq<int>>,
    ac: int,
    bc: int,
    i: int,
    j: int,
) -> Seq<int> {
    acc_model::<F>(c, matmul_terms::<F>(c, a, b, ac, bc, i, j), ac)
}

/// A row-major position lies inside the storage.
proof fn lemma_rc_index(i: int, j: int, rows: int, cols: int)
    requires
        0 <= i < rows,
        0 <= j < cols,
    ensures
        0 <= i * cols + j < rows * cols,
{
    assert(i * cols + j < rows * cols) by (nonlinear_arith)
        requires
            0 <= i < rows,
            0 <= j < cols,
    ;
    assert(0 <= i * cols) by (nonlinear_arith)
        requires
            0 <= i,
            0 <= cols,
    ;
}

/// Law: multiplying by the identity matrix (multiplicative identities on
/// the diagonal, additive identities elsewhere) returns the original
/// matrix unchanged, entry by entry.
pub proof fn lemma_matmul_identity<F: Field>(
    c: Seq<int>,
    a: Seq<Seq<int>>,
    b: Seq<Seq<int>>,
    rows: int,
    n: int,
    i: int,
    j: int,
)
    requires
        F::ctx_wf(c),
        a.len() == rows * n,
        b.len() == n * n,
        0 <= i < rows,
        0 <= j < n,
        forall|m: int| 0 <= m < a.len() ==> F::val_wf(c, #[trigger] a[m]),
        forall|k: int, l: int|
            0 <= k < n && 0 <= l < n ==> #[trigger] b[k * n + l] == (if k == l {
                F::one_model(c)
            } else {
                F::zero_model(c)
            }),
    ensures
        matmul_entry::<F>(c, a, b, n, n, i, j) == a[i * n + j],
{
    let ts = matmul_terms::<F>(c, a, b, n, n, i, j);
    lemma_rc_index(i, j, rows, n);
    assert forall|k: int| 0 <= k < n && k != j implies ts[k] == F::zero_model(c) by {
        lemma_rc_index(i, k, rows, n);
        lemma_rc_index(k, j, n, n);
        assert(b[k * n + j] == F::zero_model(c));
        F::lemma_mul_zero(c, a[i * n + k]);
    }
    lemma_rc_index(j, j, n, n);
    assert(b[j * n + j] == F::one_model(c));
    F::lemma_mul_one(c, a[i * n + j]);
    assert(ts[j] == a[i * n + j]);
    crate::field::lemma_acc_impulse::<F>(c, ts, n, j);
}

impl<F: Field> Matrix<F> {
    /// The declared row count, at spec level.
    pub closed spec fn nrows(&self) -> int {
        self.rows as int
    }

    /// The declared column count, at spec level.
    pub closed spec fn ncols(&self) -> int {
        self.cols as int
    }

    /// The storage length matches the declared dimensions.
    pub open spec fn well_sized(&self) -> bool {
        self@.len() == self.nrows() * self.ncols()
    }

    /// Builds a matrix from its row-major elements and its dimensions.
    pub fn new(v: Vec<F>, rows: usize, cols: usize) -> (r: Matrix<F>)
        requires
            v@.len() == rows * cols,
        ensures
            r@ == v@,
            r.nrows() == rows,
            r.ncols() == cols,
            r.well_sized(),
    {
        Matrix { v, rows, cols }
    }

    /// The `rows x cols` matrix of additive identities of the field that
    /// `like` belongs to: the storage holds exactly `rows * cols` zero
    /// elements.
    pub fn zero(rows: usize, cols: usize, like: &F) -> (r: Matrix<F>)
        requires
            F::ctx_wf(like.context_model()),
            rows * cols <= usize::MAX as int,
        ensures
            r.nrows() == rows,
            r.ncols() == cols,
            r.well_sized(),
            r@.len() == rows * cols,
            forall|m: int|
                0 <= m < r@.len() ==> (#[trigger] r@[m]).context_model() == like.context_model()
                    && r@[m].value_model() == F::zero_model(like.context_model()),
            pwf(r@),
    {
        proof {
            assert(rows * cols >= 0) by (nonlinear_arith);
        }
        let total: usize = rows * cols;
        let z = like.zero_of();
        let mut out: Vec<F> = Vec::new();
        let mut i: usize = 0;
        while i < total
            invariant
                i <= total,
                out@.len() == i,
                F::ctx_wf(like.context_model()),
                z.context_model() == like.context_model(),
                z.value_model() == F::zero_model(like.context_model()),
                forall|k: int|
                    0 <= k < i as int ==> (#[trigger] out@[k]).context_model()
                        == like.context_model() && out@[k].value_model() == F::zero_model(
                        like.context_model(),
                    ),
            decreases total - i,
        {
            out.push(z.dup());
            i += 1;
        }
        proof {
            F::lemma_zero_wf(like.context_model());
        }
        Matrix { v: out, rows, cols }
    }

    /// The declared row count.
    pub fn rows(&self) -> (r: usize)
        ensures
            r as int == self.nrows(),
    {
        self.rows
    }

    /// The declared column count.
    pub fn cols(&self) -> (r: usize)
        ensures
            r as int == self.ncols(),
    {
        self.cols
    }

    /// The element at row `i`, column `j`.
    pub fn get(&self, i: usize, j: usize) -> (r: &F)
        requires
            self.well_sized(),
            i < self.nrows(),
            j < self.ncols(),
        ensures
            *r == self@[i as int * self.ncols() + j as int],
    {
        let n = self.v.len();
        proof {
            lemma_rc_index(i as int, j as int, self.nrows(), self.ncols());
        }
        &self.v[i * self.cols + j]
    }

    /// Replaces the element at row `i`, column `j`.
    pub fn set(&mut self, i: usize, j: usize, x: F)
        requires
            old(self).well_sized(),
            i < old(self).nrows(),
            j < old(self).ncols(),
        ensures
            final(self).nrows() == old(self).nrows(),
            final(self).ncols() == old(self).ncols(),
            final(self)@ == old(self)@.update(i as int * old(self).ncols() + j as int, x),
            final(self).well_sized(),
    {
        let n = self.v.len();
        proof {
            lemma_rc_index(i as int, j as int, self.nrows(), self.ncols());
        }
        self.v.set(i * self.cols + j, x);
    }

    /// Exchanges the element models at the positions `i` and `j` (each a
    /// row-column pair).
    pub fn swap(&mut self, i: (usize, usize), j: (usize, usize))
        requires
            old(self).well_sized(),
            i.0 < old(self).nrows(),
            i.1 < old(self).ncols(),
            j.0 < old(self).nrows(),
            j.1 < old(self).ncols(),
        ensures
            final(self).nrows() == old(self).nrows(),
            final(self).ncols() == old(self).ncols(),
            final(self).well_sized(),
            final(self)@.len() == old(self)@.len(),
            ({
                let pi = i.0 as int * old(self).ncols() + i.1 as int;
                let pj = j.0 as int * old(self).ncols() + j.1 as int;
                &&& (#[trigger] final(self)@[pi]).value_model() == old(self)@[pj].value_model()
                &&& final(self)@[pi].context_model() == old(self)@[pj].context_model()
                &&& final(self)@[pj].value_model() == old(self)@[pi].value_model()
                &&& final(self)@[pj].context_model() == old(self)@[pi].context_model()
                &&& forall|m: int|
                    0 <= m < old(self)@.len() && m != pi && m != pj ==> final(self)@[m] == old(
                        self,
                    )@[m]
            }),
    {
        let n = self.v.len();
        proof {
            lemma_rc_index(i.0 as int, i.1 as int, self.nrows(), self.ncols());
            lemma_rc_index(j.0 as int, j.1 as int, self.nrows(), self.ncols());
        }
        let pi: usize = i.0 * self.cols + i.1;
        let pj: usize = j.0 * self.cols + j.1;
        let a = self.v[pi].dup();
        let b = self.v[pj].dup();
        self.v.set(pi, b);
        self.v.set(pj, a);
    }

    /// A matrix with the same shape and element models.
    pub fn duplicate(&self) -> (r: Matrix<F>)
        ensures
            r.nrows() == self.nrows(),
            r.ncols() == self.ncols(),
            r@.len() == self@.len(),
            forall|m: int|
                0 <= m < self@.len() ==> (#[trigger] r@[m]).context_model()
                    == self@[m].context_model() && r@[m].value_model() == self@[m].value_model(),
    {
        let mut out: Vec<F> = Vec::new();
        let mut i: usize = 0;
        while i < self.v.len()
            invariant
                i <= self@.len(),
                out@.len() == i,
                forall|k: int|
                    0 <= k < i as int ==> (#[trigger] out@[k]).context_model()
                        == self@[k].context_model() && out@[k].value_model()
                        == self@[k].value_model(),
            decreases self@.len() - i,
        {
            out.push(self.v[i].dup());
            i += 1;
        }
        Matrix { v: out, rows: self.rows, cols: self.cols }
    }

    /// Structural equality of shape and element models.
    pub fn equals(&self, rhs: &Matrix<F>) -> (b: bool)
        requires
            pwf(self@),
            pwf(rhs@),
            same_pctx(self@, rhs@),
        ensures
            b == (self.nrows() == rhs.nrows() && self.ncols() == rhs.ncols() && models(self@)
                == models(rhs@)),
    {
        if self.rows != rhs.rows || self.cols != rhs.cols || self.v.len() != rhs.v.len() {
            proof {
                if self.v@.len() != rhs.v@.len() {
                    assert(models(self@).len() != models(rhs@).len());
                }
            }
            return false;
        }
        let mut i: usize = 0;
        while i < self.v.len()
            invariant
                i <= self@.len(),
                self@.len() == rhs@.len(),
                pwf(self@),
                pwf(rhs@),
                same_pctx(self@, rhs@),
                forall|k: int| 0 <= k < i as int ==> models(self@)[k] == models(rhs@)[k],
            decreases self@.len() - i,
        {
            if !self.v[i].equals(&rhs.v[i]) {
                proof {
                    assert(models(self@)[i as int] != models(rhs@)[i as int]);
                }
                return false;
            }
            i += 1;
        }
        proof {
            assert(models(self@) =~= models(rhs@));
        }
        true
    }

    /// Element-wise sum; operands of unequal shape are a dimension
    /// mismatch, exactly then.
    pub fn add(&self, rhs: &Matrix<F>) -> (r: Result<Matrix<F>, AlgebraError>)
        requires
            self.well_sized(),
            rhs.well_sized(),
            pwf(self@),
            pwf(rhs@),
            same_pctx(self@, rhs@),
        ensures
            (r is Err) <==> !(self.nrows() == rhs.nrows() && self.ncols() == rhs.ncols()),
            r is Err ==> r->Err_0 == AlgebraError::DimensionMismatch,
            r is Ok ==> (r->Ok_0).nrows() == self.nrows() && (r->Ok_0).ncols() == self.ncols()
                && (r->Ok_0).well_sized(),
            r is Ok ==> (r->Ok_0)@.len() == self@.len(),
            r is Ok ==> forall|m: int|
                0 <= m < self@.len() ==> (#[trigger] (r->Ok_0)@[m]).value_model() == F::add_model(
                    pctx(self@),
                    self@[m].value_model(),
                    rhs@[m].value_model(),
                ) && (r->Ok_0)@[m].context_model() == pctx(self@),
            r is Ok ==> pwf((r->Ok_0)@),
    {
        if self.rows != rhs.rows || self.cols != rhs.cols {
            return Err(AlgebraError::DimensionMismatch);
        }
        let mut out: Vec<F> = Vec::new();
        let mut i: usize = 0;
        while i < self.v.len()
            invariant
                i <= self@.len(),
                self@.len() == rhs@.len(),
                pwf(self@),
                pwf(rhs@),
                same_pctx(self@, rhs@),
                out@.len() == i,
                forall|k: int|
                    0 <= k < i as int ==> (#[trigger] out@[k]).value_model() == F::add_model(
                        pctx(self@),
                        self@[k].value_model(),
                        rhs@[k].value_model(),
                    ) && out@[k].context_model() == pctx(self@) && F::val_wf(
                        pctx(self@),
                        out@[k].value_model(),
                    ),
            decreases self@.len() - i,
        {
            out.push(self.v[i].add(&rhs.v[i]));
            i += 1;
        }
        Ok(Matrix { v: out, rows: self.rows, cols: self.cols })
    }

    /// Element-wise difference; operands of unequal shape are a dimension
    /// mismatch, exactly then.
    pub fn sub(&self, rhs: &Matrix<F>) -> (r: Result<Matrix<F>, AlgebraError>)
        requires
            self.well_sized(),
            rhs.well_sized(),
            pwf(self@),
            pwf(rhs@),
            same_pctx(self@, rhs@),
        ensures
            (r is Err) <==> !(self.nrows() == rhs.nrows() && self.ncols() == rhs.ncols()),
            r is Err ==> r->Err_0 == AlgebraError::DimensionMismatch,
            r is Ok ==> (r->Ok_0).nrows() == self.nrows() && (r->Ok_0).ncols() == self.ncols()
                && (r->Ok_0).well_sized(),
            r is Ok ==> (r->Ok_0)@.len() == self@.len(),
            r is Ok ==> forall|m: int|
                0 <= m < self@.len() ==> (#[trigger] (r->Ok_0)@[m]).value_model() == F::add_model(
                    pctx(self@),
                    self@[m].value_model(),
                    F::neg_model(pctx(self@), rhs@[m].value_model()),
                ) && (r->Ok_0)@[m].context_model() == pctx(self@),
            r is Ok ==> pwf((r->Ok_0)@),
    {
        if self.rows != rhs.rows || self.cols != rhs.cols {
            return Err(AlgebraError::DimensionMismatch);
        }
        let mut out: Vec<F> = Vec::new();
        let mut i: usize = 0;
        while i < self.v.len()
            invariant
                i <= self@.len(),
                self@.len() == rhs@.len(),
                pwf(self@),
                pwf(rhs@),
                same_pctx(self@, rhs@),
                out@.len() == i,
                forall|k: int|
                    0 <= k < i as int ==> (#[trigger] out@[k]).value_model() == F::add_model(
                        pctx(self@),
                        self@[k].value_model(),
                        F::neg_model(pctx(self@), rhs@[k].value_model()),
                    ) && out@[k].context_model() == pctx(self@) && F::val_wf(
                        pctx(self@),
                        out@[k].value_model(),
                    ),
            decreases self@.len() - i,
        {
            out.push(self.v[i].sub(&rhs.v[i]));
            i += 1;
        }
        Ok(Matrix { v: out, rows: self.rows, cols: self.cols })
    }

    /// Element-wise additive inverse.
    pub fn neg(&self) -> (r: Matrix<F>)
        requires
            self.well_sized(),
            pwf(self@),
        ensures
            r.nrows() == self.nrows(),
            r.ncols() == self.ncols(),
            r.well_sized(),
            r@.len() == self@.len(),
            forall|m: int|
                0 <= m < self@.len() ==> (#[trigger] r@[m]).value_model() == F::neg_model(
                    pctx(self@),
                    self@[m].value_model(),
                ) && r@[m].context_model() == pctx(self@),
            pwf(r@),
    {
        let mut out: Vec<F> = Vec::new();
        let mut i: usize = 0;
        while i < self.v.len()
            invariant
                i <= self@.len(),
                pwf(self@),
                out@.len() == i,
                forall|k: int|
                    0 <= k < i as int ==> (#[trigger] out@[k]).value_model() == F::neg_model(
                        pctx(self@),
                        self@[k].value_model(),
                    ) && out@[k].context_model() == pctx(self@) && F::val_wf(
                        pctx(self@),
                        out@[k].value_model(),
                    ),
            decreases self@.len() - i,
        {
            out.push(self.v[i].neg());
            i += 1;
        }
        Matrix { v: out, rows: self.rows, cols: self.cols }
    }

    /// Multiplication of every element by the scalar `s`.
    pub fn scalar_mul(&self, s: &F) -> (r: Matrix<F>)
        requires
            self.well_sized(),
            pwf(self@),
            F::ctx_wf(s.context_model()),
            F::val_wf(s.context_model(), s.value_model()),
            self@.len() > 0 ==> pctx(self@) == s.context_model(),
        ensures
            r.nrows() == self.nrows(),
            r.ncols() == self.ncols(),
            r.well_sized(),
            r@.len() == self@.len(),
            forall|m: int|
                0 <= m < self@.len() ==> (#[trigger] r@[m]).value_model() == F::mul_model(
                    pctx(self@),
                    self@[m].value_model(),
                    s.value_model(),
                ) && r@[m].context_model() == pctx(self@),
            pwf(r@),
    {
        let mut out: Vec<F> = Vec::new();
        let mut i: usize = 0;
        while i < self.v.len()
            invariant
                i <= self@.len(),
                pwf(self@),
                F::ctx_wf(s.context_model()),
                F::val_wf(s.context_model(), s.value_model()),
                self@.len() > 0 ==> pctx(self@) == s.context_model(),
                out@.len() == i,
                forall|k: int|
                    0 <= k < i as int ==> (#[trigger] out@[k]).value_model() == F::mul_model(
                        pctx(self@),
                        self@[k].value_model(),
                        s.value_model(),
                    ) && out@[k].context_model() == pctx(self@) && F::val_wf(
                        pctx(self@),
                        out@[k].value_model(),
                    ),
            decreases self@.len() - i,
        {
            out.push(self.v[i].mul(s));
            i += 1;
        }
        Matrix { v: out, rows: self.rows, cols: self.cols }
    }

    /// Division of every element by the scalar `s`: multiplication by its
    /// inverse.  A zero scalar is a division by zero, exactly then.
    pub fn scalar_div(&self, s: &F) -> (r: Result<Matrix<F>, AlgebraError>)
        requires
            self.well_sized(),
            pwf(self@),
            F::ctx_wf(s.context_model()),
            F::val_wf(s.context_model(), s.value_model()),
            self@.len() > 0 ==> pctx(self@) == s.context_model(),
            F::order_model(s.context_model()) <= u64::MAX as int,
        ensures
            (r is Err) <==> s.value_model() == F::zero_model(s.context_model()),
            r is Err ==> r->Err_0 == AlgebraError::DivisionByZero,
            r is Ok ==> (r->Ok_0).nrows() == self.nrows() && (r->Ok_0).ncols() == self.ncols()
                && (r->Ok_0).well_sized(),
            r is Ok ==> (r->Ok_0)@.len() == self@.len(),
            r is Ok ==> forall|m: int|
                0 <= m < self@.len() ==> (#[trigger] (r->Ok_0)@[m]).value_model() == F::mul_model(
                    pctx(self@),
                    self@[m].value_model(),
                    F::inv_model(s.context_model(), s.value_model()),
                ) && (r->Ok_0)@[m].context_model() == pctx(self@),
            r is Ok ==> pwf((r->Ok_0)@),
    {
        let w = match s.inverse() {
            Ok(w) => w,
            Err(e) => {
                return Err(e);
            },
        };
        Ok(self.scalar_mul(&w))
    }

    /// Element-wise multiplicative inverse; an element that is the
    /// additive identity is a division by zero, exactly then.
    pub fn inv_elems(&self) -> (r: Result<Matrix<F>, AlgebraError>)
        requires
            self.well_sized(),
            pwf(self@),
            self@.len() > 0 ==> F::order_model(pctx(self@)) <= u64::MAX as int,
        ensures
            (r is Err) <==> exists|m: int|
                0 <= m < self@.len() && (#[trigger] self@[m].value_model()) == F::zero_model(
                    pctx(self@),
                ),
            r is Err ==> r->Err_0 == AlgebraError::DivisionByZero,
            r is Ok ==> (r->Ok_0).nrows() == self.nrows() && (r->Ok_0).ncols() == self.ncols()
                && (r->Ok_0).well_sized(),
            r is Ok ==> (r->Ok_0)@.len() == self@.len(),
            r is Ok ==> forall|m: int|
                0 <= m < self@.len() ==> (#[trigger] (r->Ok_0)@[m]).value_model() == F::inv_model(
                    pctx(self@),
                    self@[m].value_model(),
                ) && (r->Ok_0)@[m].context_model() == pctx(self@),
            r is Ok ==> pwf((r->Ok_0)@),
    {
        let mut out: Vec<F> = Vec::new();
        let mut i: usize = 0;
        while i < self.v.len()
            invariant
                i <= self@.len(),
                pwf(self@),
                self@.len() > 0 ==> F::order_model(pctx(self@)) <= u64::MAX as int,
                out@.len() == i,
                forall|k: int|
                    0 <= k < i as int ==> (#[trigger] self@[k].value_model()) != F::zero_model(
                        pctx(self@),
                    ),
                forall|k: int|
                    0 <= k < i as int ==> (#[trigger] out@[k]).value_model() == F::inv_model(
                        pctx(self@),
                        self@[k].value_model(),
                    ) && out@[k].context_model() == pctx(self@) && F::val_wf(
                        pctx(self@),
                        out@[k].value_model(),
                    ),
            decreases self@.len() - i,
        {
            match self.v[i].inverse() {
                Ok(w) => {
                    out.push(w);
                },
                Err(e) => {
                    return Err(e);
                },
            }
            i += 1;
        }
        Ok(Matrix { v: out, rows: self.rows, cols: self.cols })
    }

    /// The transpose, as a new `cols x rows` matrix.
    pub fn transpose(&self) -> (r: Matrix<F>)
        requires
            self.well_sized(),
            pwf(self@),
        ensures
            r.nrows() == self.ncols(),
            r.ncols() == self.nrows(),
            r.well_sized(),
            forall|i: int, j: int|
                0 <= i < self.nrows() && 0 <= j < self.ncols() ==> (#[trigger] r@[j * self.nrows()
                    + i]).value_model() == self@[i * self.ncols() + j].value_model() && r@[j
                    * self.nrows() + i].context_model() == self@[i * self.ncols()
                    + j].context_model(),
            pwf(r@),
    {
        let rows = self.rows;
        let cols = self.cols;
        let n = self.v.len();
        let mut out: Vec<F> = Vec::new();
        let mut j: usize = 0;
        proof {
            assert(self.nrows() * self.ncols() == self.ncols() * self.nrows()) by (nonlinear_arith);
        }
        while j < cols
            invariant
                j <= cols,
                rows as int == self.nrows(),
                cols as int == self.ncols(),
                n == self@.len(),
                self.well_sized(),
                pwf(self@),
                out@.len() == j * rows,
                forall|m: int|
                    0 <= m < out@.len() ==> (#[trigger] out@[m]).context_model() == pctx(self@)
                        && F::val_wf(pctx(self@), out@[m].value_model()),
                forall|jj: int, ii: int|
                    0 <= jj < j as int && 0 <= ii < rows as int ==> (#[trigger] out@[jj
                        * rows as int + ii]).value_model() == self@[ii * cols as int
                        + jj].value_model() && out@[jj * rows as int + ii].context_model()
                        == self@[ii * cols as int + jj].context_model(),
            decreases cols - j,
        {
            let mut i: usize = 0;
            while i < rows
                invariant
                    i <= rows,
                    j < cols,
                    rows as int == self.nrows(),
                    cols as int == self.ncols(),
                    n == self@.len(),
                    self.well_sized(),
                    pwf(self@),
                    out@.len() == j * rows + i,
                    forall|m: int|
                        0 <= m < out@.len() ==> (#[trigger] out@[m]).context_model() == pctx(self@)
                            && F::val_wf(pctx(self@), out@[m].value_model()),
                    forall|jj: int, ii: int|
                        0 <= jj < j as int && 0 <= ii < rows as int ==> (#[trigger] out@[jj
                            * rows as int + ii]).value_model() == self@[ii * cols as int
                            + jj].value_model() && out@[jj * rows as int + ii].context_model()
                            == self@[ii * cols as int + jj].context_model(),
                    forall|ii: int|
                        0 <= ii < i as int ==> (#[trigger] out@[j as int * rows as int
                            + ii]).value_model() == self@[ii * cols as int + j as int].value_model()
                            && out@[j as int * rows as int + ii].context_model() == self@[ii
                            * cols as int + j as int].context_model(),
                decreases rows - i,
            {
                proof {
                    lemma_rc_index(i as int, j as int, rows as int, cols as int);
                    lemma_rc_index(j as int, i as int, cols as int, rows as int);
                    assert(j * rows + i < cols * rows) by (nonlinear_arith)
                        requires
                            i < rows,
                            j < cols,
                    ;
                }
                out.push(self.v[i * cols + j].dup());
                proof {
                    assert forall|jj: int, ii: int|
                        0 <= jj < j as int && 0 <= ii < rows as int implies (#[trigger] out@[jj
                            * rows as int + ii]).value_model() == self@[ii * cols as int
                            + jj].value_model() && out@[jj * rows as int + ii].context_model()
                            == self@[ii * cols as int + jj].context_model() by {
                        lemma_rc_index(jj, ii, j as int, rows as int);
                    }
                }
                i += 1;
            }
            proof {
                assert((j + 1) * rows == j * rows + rows) by (nonlinear_arith);
                assert forall|jj: int, ii: int|
                    0 <= jj < j as int + 1 && 0 <= ii < rows as int implies (#[trigger] out@[jj
                        * rows as int + ii]).value_model() == self@[ii * cols as int
                        + jj].value_model() && out@[jj * rows as int + ii].context_model()
                        == self@[ii * cols as int + jj].context_model() by {
                    if jj < j as int {
                        lemma_rc_index(jj, ii, j as int, rows as int);
                    }
                }
            }
            j += 1;
        }
        proof {
            assert(out@.len() == cols * rows) by (nonlinear_arith)
                requires
                    out@.len() == cols as int * rows as int,
            ;
        }
        Matrix { v: out, rows: cols, cols: rows }
    }

    /// Transposes a square matrix in place.
    pub fn transpose_assign(&mut self)
        requires
            old(self).well_sized(),
            old(self).nrows() == old(self).ncols(),
            pwf(old(self)@),
        ensures
            final(self).nrows() == old(self).nrows(),
            final(self).ncols() == old(self).ncols(),
            final(self).well_sized(),
            forall|i: int, j: int|
                0 <= i < old(self).nrows() && 0 <= j < old(self).ncols() ==> (#[trigger] final(self)@[j * old(self).nrows() + i]).value_model() == old(self)@[i * old(self).ncols()
                    + j].value_model() && final(self)@[j * old(self).nrows() + i].context_model()
                    == old(self)@[i * old(self).ncols() + j].context_model(),
            pwf(final(self)@),
    {
        let t = self.transpose();
        *self = t;
    }

    /// The matrix product: entry `(i, j)` of the result is the sum over
    /// `k` of `self[i][k] * rhs[k][j]`.  A left operand whose column count
    /// differs from the right operand's row count is a dimension mismatch,
    /// exactly then.  All four dimensions must be at least one.
    pub fn mul(&self, rhs: &Matrix<F>) -> (r: Result<Matrix<F>, AlgebraError>)
        requires
            self.well_sized(),
            rhs.well_sized(),
            pwf(self@),
            pwf(rhs@),
            same_pctx(self@, rhs@),
            self.nrows() >= 1,
            self.ncols() >= 1,
            rhs.nrows() >= 1,
            rhs.ncols() >= 1,
            self.nrows() * rhs.ncols() <= usize::MAX as int,
        ensures
            (r is Err) <==> self.ncols() != rhs.nrows(),
            r is Err ==> r->Err_0 == AlgebraError::DimensionMismatch,
            r is Ok ==> (r->Ok_0).nrows() == self.nrows() && (r->Ok_0).ncols() == rhs.ncols()
                && (r->Ok_0).well_sized(),
            r is Ok ==> forall|i: int, j: int|
                0 <= i < self.nrows() && 0 <= j < rhs.ncols() ==> (#[trigger] (r->Ok_0)@[i
                    * rhs.ncols() + j]).value_model() == matmul_entry::<F>(
                    pctx(self@),
                    models(self@),
                    models(rhs@),
                    self.ncols(),
                    rhs.ncols(),
                    i,
                    j,
                ) && (r->Ok_0)@[i * rhs.ncols() + j].context_model() == pctx(self@),
            r is Ok ==> pwf((r->Ok_0)@),
    {
        if self.cols != rhs.rows {
            return Err(AlgebraError::DimensionMismatch);
        }
        let rows = self.rows;
        let inner = self.cols;
        let ocols = rhs.cols;
        let ghost c = pctx(self@);
        let ghost am = models(self@);
        let ghost bm = models(rhs@);
        proof {
            lemma_rc_index(0, 0, self.nrows(), self.ncols());
            lemma_rc_index(0, 0, rhs.nrows(), rhs.ncols());
            assert(pctx(rhs@) == c);
        }
        let na = self.v.len();
        let nb = rhs.v.len();
        let z = self.v[0].zero_of();
        let mut out: Vec<F> = Vec::new();
        let mut i: usize = 0;
        while i < rows
            invariant
                i <= rows,
                rows as int == self.nrows(),
                inner as int == self.ncols(),
                inner as int == rhs.nrows(),
                ocols as int == rhs.ncols(),
                rows >= 1,
                inner >= 1,
                ocols >= 1,
                rows as int * ocols as int <= usize::MAX as int,
                self.well_sized(),
                rhs.well_sized(),
                pwf(self@),
                pwf(rhs@),
                pctx(rhs@) == c,
                c == pctx(self@),
                am == models(self@),
                bm == models(rhs@),
                F::ctx_wf(c),
                z.context_model() == c,
                z.value_model() == F::zero_model(c),
                na == self@.len(),
                nb == rhs@.len(),
                out@.len() == i * ocols,
                forall|m: int|
                    0 <= m < out@.len() ==> (#[trigger] out@[m]).context_model() == c
                        && F::val_wf(c, out@[m].value_model()),
                forall|ii: int, jj: int|
                    0 <= ii < i as int && 0 <= jj < ocols as int ==> (#[trigger] out@[ii
                        * ocols as int + jj]).value_model() == matmul_entry::<F>(
                        c,
                        am,
                        bm,
                        inner as int,
                        ocols as int,
                        ii,
                        jj,
                    ) && out@[ii * ocols as int + jj].context_model() == c && F::val_wf(
                        c,
                        out@[ii * ocols as int + jj].value_model(),
                    ),
            decreases rows - i,
        {
            let mut j: usize = 0;
            while j < ocols
                invariant
                    j <= ocols,
                    i < rows,
                    rows as int == self.nrows(),
                    inner as int == self.ncols(),
                    inner as int == rhs.nrows(),
                    ocols as int == rhs.ncols(),
                    rows >= 1,
                    inner >= 1,
                    ocols >= 1,
                    rows as int * ocols as int <= usize::MAX as int,
                    self.well_sized(),
                    rhs.well_sized(),
                    pwf(self@),
                    pwf(rhs@),
                    pctx(rhs@) == c,
                    c == pctx(self@),
                    am == models(self@),
                    bm == models(rhs@),
                    F::ctx_wf(c),
                    z.context_model() == c,
                    z.value_model() == F::zero_model(c),
                    na == self@.len(),
                    nb == rhs@.len(),
                    out@.len() == i * ocols + j,
                    forall|m: int|
                        0 <= m < out@.len() ==> (#[trigger] out@[m]).context_model() == c
                            && F::val_wf(c, out@[m].value_model()),
                    forall|ii: int, jj: int|
                        0 <= ii < i as int && 0 <= jj < ocols as int ==> (#[trigger] out@[ii
                            * ocols as int + jj]).value_model() == matmul_entry::<F>(
                            c,
                            am,
                            bm,
                            inner as int,
                            ocols as int,
                            ii,
                            jj,
                        ) && out@[ii * ocols as int + jj].context_model() == c && F::val_wf(
                            c,
                            out@[ii * ocols as int + jj].value_model(),
                        ),
                    forall|jj: int|
                        0 <= jj < j as int ==> (#[trigger] out@[i as int * ocols as int
                            + jj]).value_model() == matmul_entry::<F>(
                            c,
                            am,
                            bm,
                            inner as int,
                            ocols as int,
                            i as int,
                            jj,
                        ) && out@[i as int * ocols as int + jj].context_model() == c && F::val_wf(
                            c,
                            out@[i as int * ocols as int + jj].value_model(),
                        ),
                decreases ocols - j,
            {
                let mut acc = z.dup();
                proof {
                    F::lemma_zero_wf(c);
                }
                let mut k: usize = 0;
                while k < inner
                    invariant
                        k <= inner,
                        i < rows,
                        j < ocols,
                        rows as int == self.nrows(),
                        inner as int == self.ncols(),
                        inner as int == rhs.nrows(),
                        ocols as int == rhs.ncols(),
                        self.well_sized(),
                        rhs.well_sized(),
                        pwf(self@),
                        pwf(rhs@),
                        pctx(rhs@) == c,
                        c == pctx(self@),
                        am == models(self@),
                        bm == models(rhs@),
                        F::ctx_wf(c),
                        na == self@.len(),
                        nb == rhs@.len(),
                        acc.context_model() == c,
                        F::val_wf(c, acc.value_model()),
                        acc.value_model() == acc_model::<F>(
                            c,
                            matmul_terms::<F>(c, am, bm, inner as int, ocols as int, i as int, j as int),
                            k as int,
                        ),
                    decreases inner - k,
                {
                    proof {
                        lemma_rc_index(i as int, k as int, rows as int, inner as int);
                        lemma_rc_index(k as int, j as int, inner as int, ocols as int);
                    }
                    let t = self.v[i * inner + k].mul(&rhs.v[k * ocols + j]);
                    acc = acc.add(&t);
                    k += 1;
                }
                proof {
                    assert((i as int) * (ocols as int) + (j as int) < (rows as int) * (
                    ocols as int)) by (nonlinear_arith)
                        requires
                            0 <= (i as int) < (rows as int),
                            0 <= (j as int) < (ocols as int),
                    ;
                }
                out.push(acc);
                proof {
                    assert forall|ii: int, jj: int|
                        0 <= ii < i as int && 0 <= jj < ocols as int implies (#[trigger] out@[ii
                            * ocols as int + jj]).value_model() == matmul_entry::<F>(
                        c,
                        am,
                        bm,
                        inner as int,
                        ocols as int,
                        ii,
                        jj,
                    ) && out@[ii * ocols as int + jj].context_model() == c && F::val_wf(
                        c,
                        out@[ii * ocols as int + jj].value_model(),
                    ) by {
                        lemma_rc_index(ii, jj, i as int, ocols as int);
                    }
                }
                j += 1;
            }
            proof {
                assert((i + 1) as int * ocols as int == i as int * ocols as int + ocols as int)
                    by (nonlinear_arith);
                assert forall|ii: int, jj: int|
                    0 <= ii < i as int + 1 && 0 <= jj < ocols as int implies (#[trigger] out@[ii
                        * ocols as int + jj]).value_model() == matmul_entry::<F>(
                    c,
                    am,
                    bm,
                    inner as int,
                    ocols as int,
                    ii,
                    jj,
                ) && out@[ii * ocols as int + jj].context_model() == c && F::val_wf(
                    c,
                    out@[ii * ocols as int + jj].value_model(),
                ) by {
                    if ii < i as int {
                        lemma_rc_index(ii, jj, i as int, ocols as int);
                    }
                }
            }
            i += 1;
        }
        proof {
            assert(out@.len() == self.nrows() * rhs.ncols());
        }
        Ok(Matrix { v: out, rows, cols: ocols })
    }

    /// Replaces this matrix with its product with `rhs`; on a dimension
    /// mismatch the matrix is left unchanged.
    pub fn mul_assign(&mut self, rhs: &Matrix<F>) -> (r: Result<(), AlgebraError>)
        requires
            old(self).well_sized(),
            rhs.well_sized(),
            pwf(old(self)@),
            pwf(rhs@),
            same_pctx(old(self)@, rhs@),
            old(self).nrows() >= 1,
            old(self).ncols() >= 1,
            rhs.nrows() >= 1,
            rhs.ncols() >= 1,
            old(self).nrows() * rhs.ncols() <= usize::MAX as int,
        ensures
            (r is Err) <==> old(self).ncols() != rhs.nrows(),
            r is Err ==> r->Err_0 == AlgebraError::DimensionMismatch,
            r is Err ==> final(self)@ == old(self)@ && final(self).nrows() == old(self).nrows()
                && final(self).ncols() == old(self).ncols(),
            r is Ok ==> final(self).nrows() == old(self).nrows() && final(self).ncols()
                == rhs.ncols() && final(self).well_sized(),
            r is Ok ==> forall|i: int, j: int|
                0 <= i < old(self).nrows() && 0 <= j < rhs.ncols() ==> (#[trigger] final(self)@[i
                    * rhs.ncols() + j]).value_model() == matmul_entry::<F>(
                    pctx(old(self)@),
                    models(old(self)@),
                    models(rhs@),
                    old(self).ncols(),
                    rhs.ncols(),
                    i,
                    j,
                ) && final(self)@[i * rhs.ncols() + j].context_model() == pctx(old(self)@),
            r is Ok ==> pwf(final(self)@),
    {
        match self.mul(rhs) {
            Ok(w) => {
                *self = w;
                Ok(())
            },
            Err(e) => Err(e),
        }
    }
}

} // verus!
