//! Fixed-length vectors over any field.
//!
//! A vector is an ordered sequence of field elements.  Element-wise
//! operations demand operands of equal length; a mismatch is reported as a
//! dimension error, never computed around.  Circulant multiplication
//! multiplies a vector by the circulant matrix whose first row is the other
//! operand: a cyclic convolution.

use crate::errors::AlgebraError;
use crate::field::{acc_model, Field};
use crate::poly::{models, pctx, pwf, same_pctx};
use vstd::arithmetic::div_mod::{lemma_mod_add_multiples_vanish, lemma_small_mod};
use vstd::prelude::*;

verus! {

/// A fixed-length vector of field elements.
pub struct Vector<F: Field> {
    v: Vec<F>,
}

impl<F: Field> View for Vector<F> {
    type V = Seq<F>;

    closed spec fn view(&self) -> Seq<F> {
        self.v@
    }
}

/// The terms of one circulant entry: for output index `i`, term `j` is
/// `a[j] * b[(n + i - j) % n]`.
pub open spec fn circ_terms<F: Field>(
    c: Seq<int>,
    a: Seq<Seq<int>>,
    b: Seq<Seq<int>>,
    i: int,
) -> Seq<Seq<int>> {
    let n = a.len() as int;
    Seq::new(a.len(), |j: int| F::mul_model(c, a[j], b[(n + i - j) % n]))
}

/// One entry of the circulant (cyclic convolution) product: the sum over
/// `j` of `a[j] * b[(n + i - j) % n]`.
pub open spec fn circ_entry<F: Field>(
    c: Seq<int>,
    a: Seq<Seq<int>>,
    b: Seq<Seq<int>>,
    i: int,
) -> Seq<int> {
    acc_model::<F>(c, circ_terms::<F>(c, a, b, i), a.len() as int)
}

/// Law: convolution with the unit impulse is the identity.  Multiplying
/// any vector by the circulant matrix of `[1, 0, ..., 0]` returns the
/// vector unchanged, entry by entry.
pub proof fn lemma_circ_identity<F: Field>(c: Seq<int>, a: Seq<Seq<int>>, b: Seq<Seq<int>>, i: int)
    requires
        F::ctx_wf(c),
        a.len() == b.len(),
        a.len() >= 1,
        0 <= i < a.len(),
        forall|j: int| 0 <= j < a.len() ==> F::val_wf(c, #[trigger] a[j]),
        b[0] == F::one_model(c),
        forall|j: int| 1 <= j < b.len() ==> b[j] == F::zero_model(c),
    ensures
        circ_entry::<F>(c, a, b, i) == a[i],
{
    let n = a.len() as int;
    let ts = circ_terms::<F>(c, a, b, i);
    assert forall|j: int| 0 <= j < n && j != i implies ts[j] == F::zero_model(c) by {
        if j < i {
            lemma_mod_add_multiples_vanish(i - j, n);
            lemma_small_mod((i - j) as nat, n as nat);
        } else {
            lemma_small_mod((n + i - j) as nat, n as nat);
        }
        assert((n + i - j) % n != 0);
        F::lemma_mul_zero(c, a[j]);
    }
    assert((n + i - i) % n == 0) by {
        lemma_mod_add_multiples_vanish(0, n);
        lemma_small_mod(0, n as nat);
    }
    F::lemma_mul_one(c, a[i]);
    assert(ts[i] == a[i]);
    crate::field::lemma_acc_impulse::<F>(c, ts, n, i);
}

impl<F: Field> Vector<F> {
    /// Builds a vector from its elements.
    pub fn new(v: Vec<F>) -> (r: Vector<F>)
        ensures
            r@ == v@,
    {
        Vector { v }
    }

    /// The vector of `n` additive identities of the field that `like`
    /// belongs to.
    pub fn zero(n: usize, like: &F) -> (r: Vector<F>)
        requires
            F::ctx_wf(like.context_model()),
        ensures
            r@.len() == n,
            forall|i: int|
                0 <= i < n as int ==> (#[trigger] r@[i]).context_model() == like.context_model()
                    && r@[i].value_model() == F::zero_model(like.context_model()),
            pwf(r@),
    {
        let z = like.zero_of();
        let mut out: Vec<F> = Vec::new();
        let mut i: usize = 0;
        while i < n
            invariant
                i <= n,
                out@.len() == i,
                F::ctx_wf(like.context_model()),
                z.context_model() == like.context_model(),
                z.value_model() == F::zero_model(like.context_model()),
                forall|k: int|
                    0 <= k < i as int ==> (#[trigger] out@[k]).context_model()
                        == like.context_model() && out@[k].value_model() == F::zero_model(
                        like.context_model(),
                    ),
            decreases n - i,
        {
            out.push(z.dup());
            i += 1;
        }
        proof {
            F::lemma_zero_wf(like.context_model());
        }
        Vector { v: out }
    }

    /// The number of elements.
    pub fn len(&self) -> (r: usize)
        ensures
            r == self@.len(),
    {
        self.v.len()
    }

    /// The element at index `i`.
    pub fn get(&self, i: usize) -> (r: &F)
        requires
            i < self@.len(),
        ensures
            *r == self@[i as int],
    {
        &self.v[i]
    }

    /// Replaces the element at index `i`.
    pub fn set(&mut self, i: usize, x: F)
        requires
            i < old(self)@.len(),
        ensures
            final(self)@ == old(self)@.update(i as int, x),
    {
        self.v.set(i, x);
    }

    /// A vector with the same element models.
    pub fn duplicate(&self) -> (r: Vector<F>)
        ensures
            r@.len() == self@.len(),
            forall|i: int|
                0 <= i < self@.len() ==> (#[trigger] r@[i]).context_model()
                    == self@[i].context_model() && r@[i].value_model() == self@[i].value_model(),
    {
        let mut out: Vec<F> = Vec::new();
        let mut i: usize = 0;
        while i < self.v.len()
            invariant
                i <= self@.len(),
                out@.len() == i,
                forall|k: int|
                    0 <= k < i as int ==> (#[trigger] out@[k]).context_model()
                        == self@[k].context_model() && out@[k].value_model()
                        == self@[k].value_model(),
            decreases self@.len() - i,
        {
            out.push(self.v[i].dup());
            i += 1;
        }
        Vector { v: out }
    }

    /// Structural equality of the element models.
    pub fn equals(&self, rhs: &Vector<F>) -> (b: bool)
        requires
            pwf(self@),
            pwf(rhs@),
            same_pctx(self@, rhs@),
        ensures
            b == (models(self@) == models(rhs@)),
    {
        if self.v.len() != rhs.v.len() {
            proof {
                assert(models(self@).len() != models(rhs@).len());
            }
            return false;
        }
        let mut i: usize = 0;
        while i < self.v.len()
            invariant
                i <= self@.len(),
                self@.len() == rhs@.len(),
                pwf(self@),
                pwf(rhs@),
                same_pctx(self@, rhs@),
                forall|k: int| 0 <= k < i as int ==> models(self@)[k] == models(rhs@)[k],
            decreases self@.len() - i,
        {
            if !self.v[i].equals(&rhs.v[i]) {
                proof {
                    assert(models(self@)[i as int] != models(rhs@)[i as int]);
                }
                return false;
            }
            i += 1;
        }
        proof {
            assert(models(self@) =~= models(rhs@));
        }
        true
    }

    /// Element-wise sum; operands of unequal length are a dimension
    /// mismatch, exactly then.
    pub fn add(&self, rhs: &Vector<F>) -> (r: Result<Vector<F>, AlgebraError>)
        requires
            pwf(self@),
            pwf(rhs@),
            same_pctx(self@, rhs@),
        ensures
            (r is Err) <==> self@.len() != rhs@.len(),
            r is Err ==> r->Err_0 == AlgebraError::DimensionMismatch,
            r is Ok ==> (r->Ok_0)@.len() == self@.len(),
            r is Ok ==> forall|i: int|
                0 <= i < self@.len() ==> (#[trigger] (r->Ok_0)@[i]).value_model() == F::add_model(
                    pctx(self@),
                    self@[i].value_model(),
                    rhs@[i].value_model(),
                ) && (r->Ok_0)@[i].context_model() == pctx(self@),
            r is Ok ==> pwf((r->Ok_0)@),
    {
        if self.v.len() != rhs.v.len() {
            return Err(AlgebraError::DimensionMismatch);
        }
        let mut out: Vec<F> = Vec::new();
        let mut i: usize = 0;
        while i < self.v.len()
            invariant
                i <= self@.len(),
                self@.len() == rhs@.len(),
                pwf(self@),
                pwf(rhs@),
                same_pctx(self@, rhs@),
                out@.len() == i,
                forall|k: int|
                    0 <= k < i as int ==> (#[trigger] out@[k]).value_model() == F::add_model(
                        pctx(self@),
                        self@[k].value_model(),
                        rhs@[k].value_model(),
                    ) && out@[k].context_model() == pctx(self@) && F::val_wf(
                        pctx(self@),
                        out@[k].value_model(),
                    ),
            decreases self@.len() - i,
        {
            out.push(self.v[i].add(&rhs.v[i]));
            i += 1;
        }
        Ok(Vector { v: out })
    }

    /// Replaces this vector with its element-wise sum with `rhs`; on a
    /// dimension mismatch the vector is left unchanged.
    pub fn add_assign(&mut self, rhs: &Vector<F>) -> (r: Result<(), AlgebraError>)
        requires
            pwf(old(self)@),
            pwf(rhs@),
            same_pctx(old(self)@, rhs@),
        ensures
            (r is Err) <==> old(self)@.len() != rhs@.len(),
            r is Err ==> r->Err_0 == AlgebraError::DimensionMismatch,
            r is Err ==> final(self)@ == old(self)@,
            r is Ok ==> final(self)@.len() == old(self)@.len(),
            r is Ok ==> forall|i: int|
                0 <= i < old(self)@.len() ==> (#[trigger] final(self)@[i]).value_model()
                    == F::add_model(
                    pctx(old(self)@),
                    old(self)@[i].value_model(),
                    rhs@[i].value_model(),
                ) && final(self)@[i].context_model() == pctx(old(self)@),
            r is Ok ==> pwf(final(self)@),
    {
        match self.add(rhs) {
            Ok(w) => {
                *self = w;
                Ok(())
            },
            Err(e) => Err(e),
        }
    }

    /// Element-wise additive inverse.
    pub fn neg(&self) -> (r: Vector<F>)
        requires
            pwf(self@),
        ensures
            r@.len() == self@.len(),
            forall|i: int|
                0 <= i < self@.len() ==> (#[trigger] r@[i]).value_model() == F::neg_model(
                    pctx(self@),
                    self@[i].value_model(),
                ) && r@[i].context_model() == pctx(self@),
            pwf(r@),
    {
        let mut out: Vec<F> = Vec::new();
        let mut i: usize = 0;
        while i < self.v.len()
            invariant
                i <= self@.len(),
                pwf(self@),
                out@.len() == i,
                forall|k: int|
                    0 <= k < i as int ==> (#[trigger] out@[k]).value_model() == F::neg_model(
                        pctx(self@),
                        self@[k].value_model(),
                    ) && out@[k].context_model() == pctx(self@) && F::val_wf(
                        pctx(self@),
                        out@[k].value_model(),
                    ),
            decreases self@.len() - i,
        {
            out.push(self.v[i].neg());
            i += 1;
        }
        Vector { v: out }
    }

    /// Element-wise difference; operands of unequal length are a dimension
    /// mismatch, exactly then.
    pub fn sub(&self, rhs: &Vector<F>) -> (r: Result<Vector<F>, AlgebraError>)
        requires
            pwf(self@),
            pwf(rhs@),
            same_pctx(self@, rhs@),
        ensures
            (r is Err) <==> self@.len() != rhs@.len(),
            r is Err ==> r->Err_0 == AlgebraError::DimensionMismatch,
            r is Ok ==> (r->Ok_0)@.len() == self@.len(),
            r is Ok ==> forall|i: int|
                0 <= i < self@.len() ==> (#[trigger] (r->Ok_0)@[i]).value_model() == F::add_model(
                    pctx(self@),
                    self@[i].value_model(),
                    F::neg_model(pctx(self@), rhs@[i].value_model()),
                ) && (r->Ok_0)@[i].context_model() == pctx(self@),
            r is Ok ==> pwf((r->Ok_0)@),
    {
        if self.v.len() != rhs.v.len() {
            return Err(AlgebraError::DimensionMismatch);
        }
        let mut out: Vec<F> = Vec::new();
        let mut i: usize = 0;
        while i < self.v.len()
            invariant
                i <= self@.len(),
                self@.len() == rhs@.len(),
                pwf(self@),
                pwf(rhs@),
                same_pctx(self@, rhs@),
                out@.len() == i,
                forall|k: int|
                    0 <= k < i as int ==> (#[trigger] out@[k]).value_model() == F::add_model(
                        pctx(self@),
                        self@[k].value_model(),
                        F::neg_model(pctx(self@), rhs@[k].value_model()),
                    ) && out@[k].context_model() == pctx(self@) && F::val_wf(
                        pctx(self@),
                        out@[k].value_model(),
                    ),
            decreases self@.len() - i,
        {
            out.push(self.v[i].sub(&rhs.v[i]));
            i += 1;
        }
        Ok(Vector { v: out })
    }

    /// Replaces this vector with its element-wise difference with `rhs`; on
    /// a dimension mismatch the vector is left unchanged.
    pub fn sub_assign(&mut self, rhs: &Vector<F>) -> (r: Result<(), AlgebraError>)
        requires
            pwf(old(self)@),
            pwf(rhs@),
            same_pctx(old(self)@, rhs@),
        ensures
            (r is Err) <==> old(self)@.len() != rhs@.len(),
            r is Err ==> r->Err_0 == AlgebraError::DimensionMismatch,
            r is Err ==> final(self)@ == old(self)@,
            r is Ok ==> final(self)@.len() == old(self)@.len(),
            r is Ok ==> forall|i: int|
                0 <= i < old(self)@.len() ==> (#[trigger] final(self)@[i]).value_model()
                    == F::add_model(
                    pctx(old(self)@),
                    old(self)@[i].value_model(),
                    F::neg_model(pctx(old(self)@), rhs@[i].value_model()),
                ) && final(self)@[i].context_model() == pctx(old(self)@),
            r is Ok ==> pwf(final(self)@),
    {
        match self.sub(rhs) {
            Ok(w) => {
                *self = w;
                Ok(())
            },
            Err(e) => Err(e),
        }
    }

    /// Multiplication of every element by the scalar `s`.
    pub fn scalar_mul(&self, s: &F) -> (r: Vector<F>)
        requires
            pwf(self@),
            F::ctx_wf(s.context_model()),
            F::val_wf(s.context_model(), s.value_model()),
            self@.len() > 0 ==> pctx(self@) == s.context_model(),
        ensures
            r@.len() == self@.len(),
            forall|i: int|
                0 <= i < self@.len() ==> (#[trigger] r@[i]).value_model() == F::mul_model(
                    pctx(self@),
                    self@[i].value_model(),
                    s.value_model(),
                ) && r@[i].context_model() == pctx(self@),
            pwf(r@),
    {
        let mut out: Vec<F> = Vec::new();
        let mut i: usize = 0;
        while i < self.v.len()
            invariant
                i <= self@.len(),
                pwf(self@),
                F::ctx_wf(s.context_model()),
                F::val_wf(s.context_model(), s.value_model()),
                self@.len() > 0 ==> pctx(self@) == s.context_model(),
                out@.len() == i,
                forall|k: int|
                    0 <= k < i as int ==> (#[trigger] out@[k]).value_model() == F::mul_model(
                        pctx(self@),
                        self@[k].value_model(),
                        s.value_model(),
                    ) && out@[k].context_model() == pctx(self@) && F::val_wf(
                        pctx(self@),
                        out@[k].value_model(),
                    ),
            decreases self@.len() - i,
        {
            out.push(self.v[i].mul(s));
            i += 1;
        }
        Vector { v: out }
    }

    /// Division of every element by the scalar `s`: multiplication by its
    /// inverse.  A zero scalar is a division by zero, exactly then.
    pub fn scalar_div(&self, s: &F) -> (r: Result<Vector<F>, AlgebraError>)
        requires
            pwf(self@),
            F::ctx_wf(s.context_model()),
            F::val_wf(s.context_model(), s.value_model()),
            self@.len() > 0 ==> pctx(self@) == s.context_model(),
            F::order_model(s.context_model()) <= u64::MAX as int,
        ensures
            (r is Err) <==> s.value_model() == F::zero_model(s.context_model()),
            r is Err ==> r->Err_0 == AlgebraError::DivisionByZero,
            r is Ok ==> (r->Ok_0)@.len() == self@.len(),
            r is Ok ==> forall|i: int|
                0 <= i < self@.len() ==> (#[trigger] (r->Ok_0)@[i]).value_model() == F::mul_model(
                    pctx(self@),
                    self@[i].value_model(),
                    F::inv_model(s.context_model(), s.value_model()),
                ) && (r->Ok_0)@[i].context_model() == pctx(self@),
            r is Ok ==> pwf((r->Ok_0)@),
    {
        let w = match s.inverse() {
            Ok(w) => w,
            Err(e) => {
                return Err(e);
            },
        };
        Ok(self.scalar_mul(&w))
    }

    /// Element-wise multiplicative inverse; an element that is the additive
    /// identity is a division by zero, exactly then.
    pub fn inv_elems(&self) -> (r: Result<Vector<F>, AlgebraError>)
        requires
            pwf(self@),
            self@.len() > 0 ==> F::order_model(pctx(self@)) <= u64::MAX as int,
        ensures
            (r is Err) <==> exists|i: int|
                0 <= i < self@.len() && (#[trigger] self@[i].value_model()) == F::zero_model(
                    pctx(self@),
                ),
            r is Err ==> r->Err_0 == AlgebraError::DivisionByZero,
            r is Ok ==> (r->Ok_0)@.len() == self@.len(),
            r is Ok ==> forall|i: int|
                0 <= i < self@.len() ==> (#[trigger] (r->Ok_0)@[i]).value_model() == F::inv_model(
                    pctx(self@),
                    self@[i].value_model(),
                ) && (r->Ok_0)@[i].context_model() == pctx(self@),
            r is Ok ==> pwf((r->Ok_0)@),
    {
        let mut out: Vec<F> = Vec::new();
        let mut i: usize = 0;
        while i < self.v.len()
            invariant
                i <= self@.len(),
                pwf(self@),
                self@.len() > 0 ==> F::order_model(pctx(self@)) <= u64::MAX as int,
                out@.len() == i,
                forall|k: int|
                    0 <= k < i as int ==> (#[trigger] self@[k].value_model()) != F::zero_model(
                        pctx(self@),
                    ),
                forall|k: int|
                    0 <= k < i as int ==> (#[trigger] out@[k]).value_model() == F::inv_model(
                        pctx(self@),
                        self@[k].value_model(),
                    ) && out@[k].context_model() == pctx(self@) && F::val_wf(
                        pctx(self@),
                        out@[k].value_model(),
                    ),
            decreases self@.len() - i,
        {
            match self.v[i].inverse() {
                Ok(w) => {
                    out.push(w);
                },
                Err(e) => {
                    return Err(e);
                },
            }
            i += 1;
        }
        Ok(Vector { v: out })
    }

    /// Circulant multiplication: entry `i` of the result is the sum over
    /// `j` of `self[j] * circ_mat[(n + i - j) % n]`, multiplying `self` by
    /// the circulant matrix whose first row is `circ_mat`.  Operands must
    /// have equal, non-zero length; anything else is a dimension mismatch,
    /// exactly then.
    pub fn circ_mul(&self, circ_mat: &Vector<F>) -> (r: Result<Vector<F>, AlgebraError>)
        requires
            pwf(self@),
            pwf(circ_mat@),
            same_pctx(self@, circ_mat@),
        ensures
            (r is Err) <==> (self@.len() != circ_mat@.len() || self@.len() == 0),
            r is Err ==> r->Err_0 == AlgebraError::DimensionMismatch,
            r is Ok ==> (r->Ok_0)@.len() == self@.len(),
            r is Ok ==> forall|i: int|
                0 <= i < self@.len() ==> (#[trigger] (r->Ok_0)@[i]).value_model() == circ_entry::<
                    F,
                >(pctx(self@), models(self@), models(circ_mat@), i) && (r->Ok_0)@[i].context_model()
                    == pctx(self@),
            r is Ok ==> pwf((r->Ok_0)@),
    {
        let n = self.v.len();
        if n != circ_mat.v.len() || n == 0 {
            return Err(AlgebraError::DimensionMismatch);
        }
        let ghost c = pctx(self@);
        let ghost am = models(self@);
        let ghost bm = models(circ_mat@);
        let z = self.v[0].zero_of();
        let mut out: Vec<F> = Vec::new();
        let mut i: usize = 0;
        proof {
            F::lemma_zero_wf(c);
        }
        while i < n
            invariant
                i <= n,
                n == self@.len(),
                n == circ_mat@.len(),
                n >= 1,
                pwf(self@),
                pwf(circ_mat@),
                pctx(self@) == pctx(circ_mat@),
                c == pctx(self@),
                am == models(self@),
                bm == models(circ_mat@),
                F::ctx_wf(c),
                z.context_model() == c,
                z.value_model() == F::zero_model(c),
                out@.len() == i,
                forall|k: int|
                    0 <= k < i as int ==> (#[trigger] out@[k]).value_model() == circ_entry::<F>(
                        c,
                        am,
                        bm,
                        k,
                    ) && out@[k].context_model() == c && F::val_wf(c, out@[k].value_model()),
            decreases n - i,
        {
            let mut acc = z.dup();
            proof {
                F::lemma_zero_wf(c);
            }
            let mut j: usize = 0;
            while j < n
                invariant
                    j <= n,
                    i < n,
                    n == self@.len(),
                    n == circ_mat@.len(),
                    pwf(self@),
                    pwf(circ_mat@),
                    pctx(self@) == pctx(circ_mat@),
                    c == pctx(self@),
                    am == models(self@),
                    bm == models(circ_mat@),
                    F::ctx_wf(c),
                    acc.context_model() == c,
                    F::val_wf(c, acc.value_model()),
                    acc.value_model() == acc_model::<F>(c, circ_terms::<F>(c, am, bm, i as int), j as int),
                decreases n - j,
            {
                let idx: usize = if i >= j {
                    i - j
                } else {
                    n - j + i
                };
                proof {
                    let ni = n as int;
                    let ii = i as int;
                    let jj = j as int;
                    if ii >= jj {
                        lemma_mod_add_multiples_vanish(ii - jj, ni);
                        lemma_small_mod((ii - jj) as nat, ni as nat);
                    } else {
                        lemma_small_mod((ni + ii - jj) as nat, ni as nat);
                    }
                    assert(idx as int == (ni + ii - jj) % ni);
                    assert(circ_terms::<F>(c, am, bm, ii)[jj] == F::mul_model(
                        c,
                        am[jj],
                        bm[idx as int],
                    ));
                }
                let t = self.v[j].mul(&circ_mat.v[idx]);
                acc = acc.add(&t);
                j += 1;
            }
            out.push(acc);
            i += 1;
        }
        Ok(Vector { v: out })
    }

    /// Replaces this vector with its circulant product with `circ_mat`; on
    /// a dimension mismatch the vector is left unchanged.
    pub fn circ_mul_assign(&mut self, circ_mat: &Vector<F>) -> (r: Result<(), AlgebraError>)
        requires
            pwf(old(self)@),
            pwf(circ_mat@),
            same_pctx(old(self)@, circ_mat@),
        ensures
            (r is Err) <==> (old(self)@.len() != circ_mat@.len() || old(self)@.len() == 0),
            r is Err ==> r->Err_0 == AlgebraError::DimensionMismatch,
            r is Err ==> final(self)@ == old(self)@,
            r is Ok ==> final(self)@.len() == old(self)@.len(),
            r is Ok ==> forall|i: int|
                0 <= i < old(self)@.len() ==> (#[trigger] final(self)@[i]).value_model()
                    == circ_entry::<F>(
                    pctx(old(self)@),
                    models(old(self)@),
                    models(circ_mat@),
                    i,
                ) && final(self)@[i].context_model() == pctx(old(self)@),
            r is Ok ==> pwf(final(self)@),
    {
        match self.circ_mul(circ_mat) {
            Ok(w) => {
                *self = w;
                Ok(())
            },
            Err(e) => Err(e),
        }
    }
}

} // verus!
