//! Dense univariate polynomials over any field.
//!
//! A polynomial is an ordered sequence of coefficients indexed by degree
//! (index 0 is the constant term).  Trailing zero coefficients are legal and
//! affect only the reported degree, not the storage length.  The literal
//! constructor takes coefficients highest degree first, as they are written,
//! and stores them lowest degree first.
//!
//! Contracts are stated over the coefficient models: `models` maps the
//! coefficient sequence to the sequence of element models, and the spec
//! functions below define degree, convolution and Euclidean reduction on
//! those models, generically in the field.

use crate::errors::AlgebraError;
use crate::field::{
    acc_model, lemma_acc_congruence, lemma_acc_reverse, lemma_acc_zero_prefix,
    lemma_acc_zero_suffix, Field,
};
use vstd::prelude::*;

verus! {

/// A dense polynomial with coefficients in the field `F`.
pub struct Poly<F: Field> {
    v: Vec<F>,
}

impl<F: Field> View for Poly<F> {
    type V = Seq<F>;

    closed spec fn view(&self) -> Seq<F> {
        self.v@
    }
}

/// The value models of a coefficient sequence.
pub open spec fn models<F: Field>(s: Seq<F>) -> Seq<Seq<int>> {
    Seq::new(s.len(), |i: int| s[i].value_model())
}

/// The field context shared by the coefficients (meaningful when the
/// sequence is non-empty and well-formed).
pub open spec fn pctx<F: Field>(s: Seq<F>) -> Seq<int> {
    s[0].context_model()
}

/// All coefficients share one well-formed context and are valid in it.
pub open spec fn pwf<F: Field>(s: Seq<F>) -> bool {
    &&& s.len() > 0 ==> F::ctx_wf(pctx(s))
    &&& forall|i: int|
        0 <= i < s.len() ==> (#[trigger] s[i]).context_model() == pctx(s) && F::val_wf(
            pctx(s),
            s[i].value_model(),
        )
}

/// Two coefficient sequences that can meet in one operation: where both are
/// non-empty, they agree on the field context.
pub open spec fn same_pctx<F: Field>(a: Seq<F>, b: Seq<F>) -> bool {
    a.len() == 0 || b.len() == 0 || pctx(a) == pctx(b)
}

/// The context that governs the result of a binary operation: the context
/// of whichever operand is non-empty.
pub open spec fn joint_ctx<F: Field>(a: Seq<F>, b: Seq<F>) -> Seq<int> {
    if a.len() > 0 {
        pctx(a)
    } else {
        pctx(b)
    }
}

/// The terms of one convolution entry: for output index `m`, term `i` is
/// `a[i] * b[m - i]` where that product exists, else the additive identity.
pub open spec fn conv_terms<F: Field>(
    c: Seq<int>,
    a: Seq<Seq<int>>,
    b: Seq<Seq<int>>,
    m: int,
) -> Seq<Seq<int>> {
    Seq::new(
        a.len(),
        |i: int|
            if 0 <= m - i < b.len() {
                F::mul_model(c, a[i], b[m - i])
            } else {
                F::zero_model(c)
            },
    )
}

/// One entry of the ring product (full convolution) of two coefficient
/// model sequences: the sum over `i` of `a[i] * b[m - i]`.
pub open spec fn conv_entry<F: Field>(
    c: Seq<int>,
    a: Seq<Seq<int>>,
    b: Seq<Seq<int>>,
    m: int,
) -> Seq<int> {
    acc_model::<F>(c, conv_terms::<F>(c, a, b, m), a.len() as int)
}

/// The full convolution of two non-empty coefficient model sequences; its
/// length is `a.len() + b.len() - 1`.
pub open spec fn conv_model<F: Field>(
    c: Seq<int>,
    a: Seq<Seq<int>>,
    b: Seq<Seq<int>>,
) -> Seq<Seq<int>> {
    Seq::new((a.len() + b.len() - 1) as nat, |m: int| conv_entry::<F>(c, a, b, m))
}

/// All terms of a convolution entry are valid field values.
pub proof fn lemma_conv_terms_wf<F: Field>(c: Seq<int>, a: Seq<Seq<int>>, b: Seq<Seq<int>>, m: int)
    requires
        F::ctx_wf(c),
        forall|i: int| 0 <= i < a.len() ==> F::val_wf(c, #[trigger] a[i]),
        forall|j: int| 0 <= j < b.len() ==> F::val_wf(c, #[trigger] b[j]),
    ensures
        forall|k: int|
            0 <= k < a.len() ==> F::val_wf(c, #[trigger] conv_terms::<F>(c, a, b, m)[k]),
{
    F::lemma_zero_wf(c);
    assert forall|k: int|
        0 <= k < a.len() implies F::val_wf(c, #[trigger] conv_terms::<F>(c, a, b, m)[k]) by {
        if 0 <= m - k < b.len() {
            F::lemma_mul_wf(c, a[k], b[m - k]);
        }
    }
}

/// A convolution entry is a valid field value.
pub proof fn lemma_conv_entry_wf<F: Field>(c: Seq<int>, a: Seq<Seq<int>>, b: Seq<Seq<int>>, m: int)
    requires
        F::ctx_wf(c),
        forall|i: int| 0 <= i < a.len() ==> F::val_wf(c, #[trigger] a[i]),
        forall|j: int| 0 <= j < b.len() ==> F::val_wf(c, #[trigger] b[j]),
    ensures
        F::val_wf(c, conv_entry::<F>(c, a, b, m)),
{
    lemma_conv_terms_wf::<F>(c, a, b, m);
    crate::field::lemma_acc_wf::<F>(c, conv_terms::<F>(c, a, b, m), a.len() as int);
}

/// Ring multiplication of polynomials is commutative: each convolution
/// entry is unchanged when the operands swap.  The sum over `i` of
/// `a[i] * b[m - i]` is reversed, shifted, and rewritten term by term with
/// the commutativity of field multiplication.
pub proof fn lemma_conv_entry_comm<F: Field>(c: Seq<int>, a: Seq<Seq<int>>, b: Seq<Seq<int>>, m: int)
    requires
        F::ctx_wf(c),
        a.len() >= 1,
        b.len() >= 1,
        0 <= m < a.len() + b.len() - 1,
        forall|i: int| 0 <= i < a.len() ==> F::val_wf(c, #[trigger] a[i]),
        forall|j: int| 0 <= j < b.len() ==> F::val_wf(c, #[trigger] b[j]),
    ensures
        conv_entry::<F>(c, a, b, m) == conv_entry::<F>(c, b, a, m),
{
    let la = a.len() as int;
    let lb = b.len() as int;
    let nn = la + lb;
    let ext = Seq::new(
        nn as nat,
        |i: int|
            if 0 <= i < la && 0 <= m - i < lb {
                F::mul_model(c, a[i], b[m - i])
            } else {
                F::zero_model(c)
            },
    );
    let t1 = conv_terms::<F>(c, a, b, m);
    let t2 = conv_terms::<F>(c, b, a, m);
    F::lemma_zero_wf(c);
    lemma_conv_terms_wf::<F>(c, a, b, m);
    lemma_conv_terms_wf::<F>(c, b, a, m);
    assert forall|i: int| 0 <= i < nn implies F::val_wf(c, #[trigger] ext[i]) by {
        if 0 <= i < la && 0 <= m - i < lb {
            F::lemma_mul_wf(c, a[i], b[m - i]);
        }
    }
    assert(forall|i: int| 0 <= i < la ==> t1[i] == ext[i]);
    lemma_acc_congruence::<F>(c, t1, ext, la);
    lemma_acc_zero_suffix::<F>(c, ext, la, nn);
    lemma_acc_reverse::<F>(c, ext, nn);
    let rev = Seq::new(nn as nat, |j: int| ext[nn - 1 - j]);
    let s = nn - 1 - m;
    assert(forall|j: int| 0 <= j < nn ==> F::val_wf(c, #[trigger] rev[j]));
    assert(forall|j: int| 0 <= j < s ==> rev[j] == F::zero_model(c));
    lemma_acc_zero_prefix::<F>(c, rev, s, nn);
    let sh = Seq::new((nn - s) as nat, |j: int| rev[j + s]);
    assert(forall|j: int| 0 <= j < m + 1 ==> sh[j] == ext[m - j]);
    assert(forall|j: int| 0 <= j < m + 1 ==> F::val_wf(c, #[trigger] sh[j]));
    let n0 = if lb <= m + 1 {
        lb
    } else {
        m + 1
    };
    assert(forall|j: int| n0 <= j < m + 1 ==> sh[j] == F::zero_model(c));
    lemma_acc_zero_suffix::<F>(c, sh, n0, m + 1);
    assert(forall|j: int| n0 <= j < lb ==> t2[j] == F::zero_model(c));
    lemma_acc_zero_suffix::<F>(c, t2, n0, lb);
    assert forall|j: int| 0 <= j < n0 implies sh[j] == t2[j] by {
        if 0 <= m - j < la {
            F::lemma_mul_comm(c, a[m - j], b[j]);
        }
    }
    lemma_acc_congruence::<F>(c, sh, t2, n0);
}

/// Convolution with an operand whose coefficients are all the additive
/// identity yields the additive identity everywhere.
pub proof fn lemma_conv_zero_rhs<F: Field>(c: Seq<int>, a: Seq<Seq<int>>, b: Seq<Seq<int>>, m: int)
    requires
        F::ctx_wf(c),
        forall|i: int| 0 <= i < a.len() ==> F::val_wf(c, #[trigger] a[i]),
        forall|j: int| 0 <= j < b.len() ==> b[j] == F::zero_model(c),
    ensures
        conv_entry::<F>(c, a, b, m) == F::zero_model(c),
{
    let ts = conv_terms::<F>(c, a, b, m);
    assert forall|i: int| 0 <= i < a.len() implies ts[i] == F::zero_model(c) by {
        if 0 <= m - i < b.len() {
            F::lemma_mul_zero(c, a[i]);
        }
    }
    crate::field::lemma_acc_zero::<F>(c, ts, a.len() as int);
}

/// Convolution with the unit impulse (the multiplicative identity in the
/// constant coefficient, the additive identity above) reproduces the other
/// operand, zero-extended.
pub proof fn lemma_conv_impulse<F: Field>(c: Seq<int>, a: Seq<Seq<int>>, b: Seq<Seq<int>>, m: int)
    requires
        F::ctx_wf(c),
        forall|i: int| 0 <= i < a.len() ==> F::val_wf(c, #[trigger] a[i]),
        b.len() >= 1,
        b[0] == F::one_model(c),
        forall|j: int| 1 <= j < b.len() ==> b[j] == F::zero_model(c),
        0 <= m,
    ensures
        m < a.len() ==> conv_entry::<F>(c, a, b, m) == a[m],
        m >= a.len() ==> conv_entry::<F>(c, a, b, m) == F::zero_model(c),
{
    let ts = conv_terms::<F>(c, a, b, m);
    F::lemma_one_wf(c);
    if m < a.len() {
        assert forall|i: int| 0 <= i < a.len() && i != m implies ts[i] == F::zero_model(c) by {
            if 0 <= m - i < b.len() {
                F::lemma_mul_zero(c, a[i]);
            }
        }
        F::lemma_mul_one(c, a[m]);
        assert(ts[m] == a[m]);
        crate::field::lemma_acc_impulse::<F>(c, ts, a.len() as int, m);
    } else {
        assert forall|i: int| 0 <= i < a.len() implies ts[i] == F::zero_model(c) by {
            if 0 <= m - i < b.len() {
                F::lemma_mul_zero(c, a[i]);
            }
        }
        crate::field::lemma_acc_zero::<F>(c, ts, a.len() as int);
    }
}

/// Law: ring multiplication of polynomials is commutative — the whole
/// convolution is unchanged when the operands swap.
pub proof fn lemma_conv_model_comm<F: Field>(c: Seq<int>, a: Seq<Seq<int>>, b: Seq<Seq<int>>)
    requires
        F::ctx_wf(c),
        a.len() >= 1,
        b.len() >= 1,
        forall|i: int| 0 <= i < a.len() ==> F::val_wf(c, #[trigger] a[i]),
        forall|j: int| 0 <= j < b.len() ==> F::val_wf(c, #[trigger] b[j]),
    ensures
        conv_model::<F>(c, a, b) == conv_model::<F>(c, b, a),
{
    assert forall|m: int|
        0 <= m < a.len() + b.len() - 1 implies conv_entry::<F>(c, a, b, m) == conv_entry::<F>(
        c,
        b,
        a,
        m,
    ) by {
        lemma_conv_entry_comm::<F>(c, a, b, m);
    }
    assert(conv_model::<F>(c, a, b) =~= conv_model::<F>(c, b, a));
}

/// Law: ring multiplication of polynomials is associative, over any field
/// whose multiplication is associative and distributes over addition.
/// Each entry of either iterated product is a double sum of the terms
/// `a[j] * (b[i-j] * d[m-i])`; the two bracketings sum the same rectangle
/// of terms row by row and column by column.
pub proof fn lemma_conv_entry_assoc<F: Field>(
    c: Seq<int>,
    a: Seq<Seq<int>>,
    b: Seq<Seq<int>>,
    d: Seq<Seq<int>>,
    m: int,
)
    requires
        F::ctx_wf(c),
        crate::field::ring_mul_laws::<F>(c),
        a.len() >= 1,
        b.len() >= 1,
        d.len() >= 1,
        forall|i: int| 0 <= i < a.len() ==> F::val_wf(c, #[trigger] a[i]),
        forall|j: int| 0 <= j < b.len() ==> F::val_wf(c, #[trigger] b[j]),
        forall|k: int| 0 <= k < d.len() ==> F::val_wf(c, #[trigger] d[k]),
        0 <= m,
    ensures
        conv_entry::<F>(c, conv_model::<F>(c, a, b), d, m) == conv_entry::<F>(
            c,
            a,
            conv_model::<F>(c, b, d),
            m,
        ),
{
    let la = a.len() as int;
    let lb = b.len() as int;
    let ld = d.len() as int;
    let nn = la + lb + ld;
    let ab = conv_model::<F>(c, a, b);
    let bd = conv_model::<F>(c, b, d);
    F::lemma_zero_wf(c);
    assert forall|i: int| 0 <= i < ab.len() implies F::val_wf(c, #[trigger] ab[i]) by {
        lemma_conv_entry_wf::<F>(c, a, b, i);
    }
    assert forall|k: int| 0 <= k < bd.len() implies F::val_wf(c, #[trigger] bd[k]) by {
        lemma_conv_entry_wf::<F>(c, b, d, k);
    }
    let g = Seq::new(
        nn as nat,
        |i: int|
            Seq::new(
                nn as nat,
                |j: int|
                    if 0 <= j < la && 0 <= i - j < lb && 0 <= m - i < ld {
                        F::mul_model(c, a[j], F::mul_model(c, b[i - j], d[m - i]))
                    } else {
                        F::zero_model(c)
                    },
            ),
    );
    assert forall|i: int, j: int| 0 <= i < nn && 0 <= j < nn implies F::val_wf(
        c,
        #[trigger] g[i][j],
    ) by {
        if 0 <= j < la && 0 <= i - j < lb && 0 <= m - i < ld {
            F::lemma_mul_wf(c, b[i - j], d[m - i]);
            F::lemma_mul_wf(c, a[j], F::mul_model(c, b[i - j], d[m - i]));
        }
    }
    // the left bracketing sums the grid row by row
    let rows = crate::field::grid_rows::<F>(c, g, nn);
    assert forall|i: int| 0 <= i < nn implies #[trigger] rows[i] == (if 0 <= i < la + lb - 1 && 0
        <= m - i < ld {
        F::mul_model(c, ab[i], d[m - i])
    } else {
        F::zero_model(c)
    }) by {
        if 0 <= i < la + lb - 1 && 0 <= m - i < ld {
            let tsab = conv_terms::<F>(c, a, b, i);
            lemma_conv_terms_wf::<F>(c, a, b, i);
            let us = Seq::new(la as nat, |j: int| F::mul_model(c, tsab[j], d[m - i]));
            crate::field::lemma_acc_mul_right::<F>(c, tsab, us, d[m - i], la);
            assert(F::mul_model(c, ab[i], d[m - i]) == acc_model::<F>(c, us, la));
            assert forall|j: int| 0 <= j < la implies us[j] == #[trigger] g[i][j] by {
                if 0 <= i - j < lb {
                    assert(tsab[j] == F::mul_model(c, a[j], b[i - j]));
                    assert(F::mul_model(c, F::mul_model(c, a[j], b[i - j]), d[m - i])
                        == F::mul_model(c, a[j], F::mul_model(c, b[i - j], d[m - i])));
                } else {
                    assert(tsab[j] == F::zero_model(c));
                    F::lemma_mul_comm(c, F::zero_model(c), d[m - i]);
                    F::lemma_mul_zero(c, d[m - i]);
                }
            }
            crate::field::lemma_acc_congruence::<F>(c, us, g[i], la);
            assert(forall|j: int| la <= j < nn ==> #[trigger] g[i][j] == F::zero_model(c));
            crate::field::lemma_acc_zero_suffix::<F>(c, g[i], la, nn);
        } else {
            assert(forall|j: int| 0 <= j < nn ==> #[trigger] g[i][j] == F::zero_model(c));
            crate::field::lemma_acc_zero::<F>(c, g[i], nn);
        }
    }
    let ts_l = conv_terms::<F>(c, ab, d, m);
    assert(forall|i: int| 0 <= i < la + lb - 1 ==> #[trigger] ts_l[i] == rows[i]);
    crate::field::lemma_acc_congruence::<F>(c, ts_l, rows, la + lb - 1);
    assert forall|i: int| 0 <= i < nn implies F::val_wf(c, #[trigger] rows[i]) by {
        crate::field::lemma_acc_wf::<F>(c, g[i], nn);
    }
    assert(forall|i: int| la + lb - 1 <= i < nn ==> #[trigger] rows[i] == F::zero_model(c));
    crate::field::lemma_acc_zero_suffix::<F>(c, rows, la + lb - 1, nn);
    assert(conv_entry::<F>(c, ab, d, m) == crate::field::grid_sum::<F>(c, g, nn, nn));
    // exchange the summation order
    crate::field::lemma_grid_exchange::<F>(c, g, nn, nn);
    let gt = crate::field::grid_transpose(g, nn, nn);
    // the right bracketing sums the transposed grid row by row
    let cols = crate::field::grid_rows::<F>(c, gt, nn);
    assert forall|j: int, i: int| 0 <= j < nn && 0 <= i < nn implies #[trigger] gt[j][i]
        == g[i][j] by {}
    assert forall|j: int| 0 <= j < nn implies #[trigger] cols[j] == (if 0 <= j < la && 0 <= m - j
        < lb + ld - 1 {
        F::mul_model(c, a[j], bd[m - j])
    } else {
        F::zero_model(c)
    }) by {
        assert(forall|i: int| 0 <= i < nn ==> #[trigger] gt[j][i] == g[i][j]);
        assert forall|i: int| 0 <= i < nn implies F::val_wf(c, #[trigger] gt[j][i]) by {}
        if 0 <= j < la && 0 <= m - j < lb + ld - 1 {
            // drop the zero prefix below index j, leaving the shifted row
            assert(forall|i: int| 0 <= i < j ==> #[trigger] gt[j][i] == F::zero_model(c));
            crate::field::lemma_acc_zero_prefix::<F>(c, gt[j], j, nn);
            let sh = Seq::new((nn - j) as nat, |k: int| gt[j][k + j]);
            let tsbd = conv_terms::<F>(c, b, d, m - j);
            lemma_conv_terms_wf::<F>(c, b, d, m - j);
            let ws = Seq::new(lb as nat, |k: int| F::mul_model(c, a[j], tsbd[k]));
            crate::field::lemma_acc_mul_left::<F>(c, tsbd, ws, a[j], lb);
            assert(F::mul_model(c, a[j], bd[m - j]) == acc_model::<F>(c, ws, lb));
            assert forall|k: int| 0 <= k < lb implies #[trigger] sh[k] == ws[k] by {
                assert(sh[k] == g[k + j][j]);
                if 0 <= m - j - k < ld {
                    assert(tsbd[k] == F::mul_model(c, b[k], d[m - j - k]));
                } else {
                    assert(tsbd[k] == F::zero_model(c));
                    F::lemma_mul_zero(c, a[j]);
                }
            }
            crate::field::lemma_acc_congruence::<F>(c, sh, ws, lb);
            assert forall|k: int| lb <= k < nn - j implies #[trigger] sh[k] == F::zero_model(
                c,
            ) by {
                assert(sh[k] == g[k + j][j]);
            }
            assert(forall|k: int| 0 <= k < nn - j ==> F::val_wf(c, #[trigger] sh[k]));
            crate::field::lemma_acc_zero_suffix::<F>(c, sh, lb, nn - j);
            assert(cols[j] == acc_model::<F>(c, sh, nn - j));
        } else {
            assert forall|i: int| 0 <= i < nn implies #[trigger] gt[j][i] == F::zero_model(c) by {
                assert(gt[j][i] == g[i][j]);
            }
            crate::field::lemma_acc_zero::<F>(c, gt[j], nn);
        }
    }
    let ts_r = conv_terms::<F>(c, a, bd, m);
    assert(forall|j: int| 0 <= j < la ==> #[trigger] ts_r[j] == cols[j]);
    crate::field::lemma_acc_congruence::<F>(c, ts_r, cols, la);
    assert forall|j: int| 0 <= j < nn implies F::val_wf(c, #[trigger] cols[j]) by {
        assert(forall|i: int| 0 <= i < nn ==> #[trigger] gt[j][i] == g[i][j]);
        crate::field::lemma_acc_wf::<F>(c, gt[j], nn);
    }
    assert(forall|j: int| la <= j < nn ==> #[trigger] cols[j] == F::zero_model(c));
    crate::field::lemma_acc_zero_suffix::<F>(c, cols, la, nn);
    assert(conv_entry::<F>(c, a, bd, m) == crate::field::grid_sum::<F>(c, gt, nn, nn));
}

/// Law: the whole iterated products agree — multiplying by `b` and then
/// by `d` is multiplying by the product of `b` and `d`.
pub proof fn lemma_conv_model_assoc<F: Field>(
    c: Seq<int>,
    a: Seq<Seq<int>>,
    b: Seq<Seq<int>>,
    d: Seq<Seq<int>>,
)
    requires
        F::ctx_wf(c),
        crate::field::ring_mul_laws::<F>(c),
        a.len() >= 1,
        b.len() >= 1,
        d.len() >= 1,
        forall|i: int| 0 <= i < a.len() ==> F::val_wf(c, #[trigger] a[i]),
        forall|j: int| 0 <= j < b.len() ==> F::val_wf(c, #[trigger] b[j]),
        forall|k: int| 0 <= k < d.len() ==> F::val_wf(c, #[trigger] d[k]),
    ensures
        conv_model::<F>(c, conv_model::<F>(c, a, b), d) == conv_model::<F>(
            c,
            a,
            conv_model::<F>(c, b, d),
        ),
{
    let lhs = conv_model::<F>(c, conv_model::<F>(c, a, b), d);
    let rhs = conv_model::<F>(c, a, conv_model::<F>(c, b, d));
    assert forall|m: int| 0 <= m < lhs.len() implies #[trigger] lhs[m] == rhs[m] by {
        lemma_conv_entry_assoc::<F>(c, a, b, d, m);
    }
    assert(lhs =~= rhs);
}

/// All entries of one long-division step are valid field values.
pub proof fn lemma_prem_step_wf<F: Field>(
    c: Seq<int>,
    v: Seq<Seq<int>>,
    b: Seq<Seq<int>>,
    db: int,
    i: int,
)
    requires
        F::ctx_wf(c),
        forall|m: int| 0 <= m < v.len() ==> F::val_wf(c, #[trigger] v[m]),
        forall|j: int| 0 <= j < b.len() ==> F::val_wf(c, #[trigger] b[j]),
        0 <= db < b.len(),
        0 <= i < v.len(),
    ensures
        forall|m: int|
            0 <= m < v.len() ==> F::val_wf(c, #[trigger] prem_step::<F>(c, v, b, db, i)[m]),
{
    let t = F::mul_model(c, v[i], F::inv_model(c, b[db]));
    F::lemma_inv_wf(c, b[db]);
    F::lemma_mul_wf(c, v[i], F::inv_model(c, b[db]));
    assert forall|m: int|
        0 <= m < v.len() implies F::val_wf(c, #[trigger] prem_step::<F>(c, v, b, db, i)[m]) by {
        if i - db <= m <= i {
            F::lemma_mul_wf(c, t, b[db - (i - m)]);
            F::lemma_neg_wf(c, F::mul_model(c, t, b[db - (i - m)]));
            F::lemma_add_wf(c, v[m], F::neg_model(c, F::mul_model(c, t, b[db - (i - m)])));
        }
    }
}

/// All entries of the long-division state are valid field values.
pub proof fn lemma_prem_from_wf<F: Field>(
    c: Seq<int>,
    v: Seq<Seq<int>>,
    b: Seq<Seq<int>>,
    db: int,
    stop: int,
    i: int,
)
    requires
        F::ctx_wf(c),
        forall|m: int| 0 <= m < v.len() ==> F::val_wf(c, #[trigger] v[m]),
        forall|j: int| 0 <= j < b.len() ==> F::val_wf(c, #[trigger] b[j]),
        0 <= db < b.len(),
        0 <= stop,
        i >= stop ==> i < v.len(),
    ensures
        forall|m: int|
            0 <= m < v.len() ==> F::val_wf(
                c,
                #[trigger] prem_from::<F>(c, v, b, db, stop, i)[m],
            ),
        prem_from::<F>(c, v, b, db, stop, i).len() == v.len(),
    decreases i + 1 - stop,
{
    if i >= stop {
        lemma_prem_step_wf::<F>(c, v, b, db, i);
        lemma_prem_from_wf::<F>(c, prem_step::<F>(c, v, b, db, i), b, db, stop, i - 1);
    }
}

/// The running invariant of polynomial long division: before index `i` is
/// processed, the partial quotient times the divisor plus the current
/// state equals the dividend, coefficient by coefficient.  Each reduction
/// step subtracts a multiple of the divisor from the state and records the
/// same multiple in the quotient, so the sum never changes.
proof fn lemma_divrem_inv<F: Field>(c: Seq<int>, a: Seq<Seq<int>>, b: Seq<Seq<int>>, i: int)
    requires
        F::ctx_wf(c),
        a.len() >= 1,
        b.len() >= 1,
        forall|m: int| 0 <= m < a.len() ==> F::val_wf(c, #[trigger] a[m]),
        forall|j: int| 0 <= j < b.len() ==> F::val_wf(c, #[trigger] b[j]),
        deg_m::<F>(c, a) >= deg_m::<F>(c, b),
        deg_m::<F>(c, b) - 1 <= i <= deg_m::<F>(c, a),
    ensures
        forall|m: int|
            0 <= m < a.len() ==> a[m] == F::add_model(
                c,
                conv_entry::<F>(c, quot_partial::<F>(c, a, b, i), b, m),
                #[trigger] prem_from::<F>(c, a, b, deg_m::<F>(c, b), i + 1, deg_m::<F>(c, a))[m],
            ),
    decreases deg_m::<F>(c, a) - i,
{
    let da = deg_m::<F>(c, a);
    let db = deg_m::<F>(c, b);
    let qlen = quot_len_m::<F>(c, a, b);
    lemma_deg_m_bound::<F>(c, a);
    lemma_deg_m_bound::<F>(c, b);
    F::lemma_zero_wf(c);
    if i == da {
        let qp = quot_partial::<F>(c, a, b, i);
        assert(forall|s: int| 0 <= s < qlen ==> qp[s] == F::zero_model(c));
        assert(prem_from::<F>(c, a, b, db, i + 1, da) == a);
        assert forall|m: int|
            0 <= m < a.len() implies a[m] == F::add_model(
            c,
            conv_entry::<F>(c, qp, b, m),
            prem_from::<F>(c, a, b, db, i + 1, da)[m],
        ) by {
            lemma_conv_zero_lhs::<F>(c, qp, b, m);
            F::lemma_add_zero(c, a[m]);
            F::lemma_add_comm(c, a[m], F::zero_model(c));
        }
    } else {
        lemma_divrem_inv::<F>(c, a, b, i + 1);
        let st1 = prem_from::<F>(c, a, b, db, i + 2, da);
        let st0 = prem_from::<F>(c, a, b, db, i + 1, da);
        lemma_prem_peel::<F>(c, a, b, db, i + 2, da);
        assert(st0 == prem_step::<F>(c, st1, b, db, i + 1));
        lemma_prem_from_wf::<F>(c, a, b, db, i + 2, da);
        let s0 = i + 1 - db;
        let t = F::mul_model(c, st1[i + 1], F::inv_model(c, b[db]));
        assert(quot_entry::<F>(c, a, b, s0) == t);
        F::lemma_inv_wf(c, b[db]);
        F::lemma_mul_wf(c, st1[i + 1], F::inv_model(c, b[db]));
        let qp1 = quot_partial::<F>(c, a, b, i + 1);
        let qp0 = quot_partial::<F>(c, a, b, i);
        assert(qp1[s0] == F::zero_model(c));
        assert(qp0[s0] == t);
        assert forall|s: int| 0 <= s < qlen implies F::val_wf(c, #[trigger] qp1[s]) by {
            if s > i - db {
                lemma_quot_entry_wf::<F>(c, a, b, s);
            }
        }
        assert forall|s: int| 0 <= s < qlen implies F::val_wf(c, #[trigger] qp0[s]) by {
            if s > i - db {
                lemma_quot_entry_wf::<F>(c, a, b, s);
            }
        }
        assert forall|m: int|
            0 <= m < a.len() implies a[m] == F::add_model(
            c,
            conv_entry::<F>(c, qp0, b, m),
            st0[m],
        ) by {
            let ts1 = conv_terms::<F>(c, qp1, b, m);
            let ts0 = conv_terms::<F>(c, qp0, b, m);
            lemma_conv_terms_wf::<F>(c, qp1, b, m);
            lemma_conv_terms_wf::<F>(c, qp0, b, m);
            let conv1 = conv_entry::<F>(c, qp1, b, m);
            let conv0 = conv_entry::<F>(c, qp0, b, m);
            crate::field::lemma_acc_wf::<F>(c, ts1, qlen);
            assert(forall|s: int| 0 <= s < qlen && s != s0 ==> ts1[s] == ts0[s]);
            if 0 <= m - s0 < b.len() {
                assert(ts1[s0] == F::mul_model(c, F::zero_model(c), b[m - s0]));
                F::lemma_mul_comm(c, F::zero_model(c), b[m - s0]);
                F::lemma_mul_zero(c, b[m - s0]);
                assert(ts1[s0] == F::zero_model(c));
            } else {
                assert(ts1[s0] == F::zero_model(c));
            }
            crate::field::lemma_acc_update::<F>(c, ts1, ts0, qlen, s0);
            assert(conv0 == F::add_model(c, conv1, ts0[s0]));
            if 0 <= m - s0 && m - s0 <= db {
                // the convolution gains exactly what the state loses
                let x = F::mul_model(c, t, b[m - s0]);
                assert(ts0[s0] == x);
                assert(st0[m] == F::add_model(c, st1[m], F::neg_model(c, x)));
                F::lemma_mul_wf(c, t, b[m - s0]);
                F::lemma_neg_wf(c, x);
                F::lemma_add_wf(c, st1[m], F::neg_model(c, x));
                F::lemma_add_assoc(c, conv1, x, F::add_model(c, st1[m], F::neg_model(c, x)));
                F::lemma_add_comm(c, x, F::add_model(c, st1[m], F::neg_model(c, x)));
                F::lemma_add_assoc(c, st1[m], F::neg_model(c, x), x);
                F::lemma_add_comm(c, F::neg_model(c, x), x);
                F::lemma_add_neg(c, x);
                F::lemma_add_zero(c, st1[m]);
                assert(F::add_model(c, conv0, st0[m]) == F::add_model(c, conv1, st1[m]));
            } else if db < m - s0 && m - s0 < b.len() {
                // beyond the divisor's degree its coefficients are zero
                lemma_deg_m_above::<F>(c, b, m - s0);
                assert(b[m - s0] == F::zero_model(c));
                F::lemma_mul_zero(c, t);
                assert(ts0[s0] == F::zero_model(c));
                F::lemma_add_zero(c, conv1);
                assert(conv0 == conv1);
                assert(st0[m] == st1[m]);
            } else {
                // this output index is untouched by the step
                assert(ts0[s0] == F::zero_model(c));
                F::lemma_add_zero(c, conv1);
                assert(conv0 == conv1);
                assert(st0[m] == st1[m]);
            }
        }
    }
}

/// Law: polynomial long division round-trips.  The quotient times the
/// divisor, plus the remainder, recovers the dividend exactly, coefficient
/// by coefficient — over any divisor, whatever its leading coefficient,
/// because each reduction step records in the quotient exactly the
/// multiple of the divisor it subtracts from the state.
pub proof fn lemma_divrem_round_trip<F: Field>(c: Seq<int>, a: Seq<Seq<int>>, b: Seq<Seq<int>>)
    requires
        F::ctx_wf(c),
        a.len() >= 1,
        b.len() >= 1,
        forall|m: int| 0 <= m < a.len() ==> F::val_wf(c, #[trigger] a[m]),
        forall|j: int| 0 <= j < b.len() ==> F::val_wf(c, #[trigger] b[j]),
    ensures
        forall|m: int|
            0 <= m < a.len() ==> a[m] == F::add_model(
                c,
                conv_entry::<F>(c, quot_models::<F>(c, a, b), b, m),
                #[trigger] prem_model::<F>(c, a, b)[m],
            ),
{
    let da = deg_m::<F>(c, a);
    let db = deg_m::<F>(c, b);
    lemma_deg_m_bound::<F>(c, a);
    lemma_deg_m_bound::<F>(c, b);
    F::lemma_zero_wf(c);
    if da >= db {
        let ii = db - 1;
        lemma_divrem_inv::<F>(c, a, b, ii);
        assert(quot_partial::<F>(c, a, b, ii) =~= quot_models::<F>(c, a, b));
        assert forall|m: int|
            0 <= m < a.len() implies a[m] == F::add_model(
            c,
            conv_entry::<F>(c, quot_models::<F>(c, a, b), b, m),
            #[trigger] prem_model::<F>(c, a, b)[m],
        ) by {
            let hterm = prem_from::<F>(c, a, b, db, ii + 1, da);
            assert(a[m] == F::add_model(
                c,
                conv_entry::<F>(c, quot_partial::<F>(c, a, b, ii), b, m),
                hterm[m],
            ));
            assert(hterm == prem_model::<F>(c, a, b));
        }
    } else {
        let qm = quot_models::<F>(c, a, b);
        assert(forall|s: int| 0 <= s < qm.len() ==> qm[s] == F::zero_model(c));
        assert(prem_model::<F>(c, a, b) == a);
        assert forall|m: int|
            0 <= m < a.len() implies a[m] == F::add_model(
            c,
            conv_entry::<F>(c, qm, b, m),
            prem_model::<F>(c, a, b)[m],
        ) by {
            lemma_conv_zero_lhs::<F>(c, qm, b, m);
            F::lemma_add_zero(c, a[m]);
            F::lemma_add_comm(c, a[m], F::zero_model(c));
        }
    }
}

/// When every coefficient at index `k` or above is the additive identity,
/// the degree lies below `k`.
pub proof fn lemma_deg_m_below<F: Field>(c: Seq<int>, a: Seq<Seq<int>>, k: int)
    requires
        1 <= k <= a.len(),
        forall|j: int| k <= j < a.len() ==> a[j] == F::zero_model(c),
    ensures
        deg_m::<F>(c, a) < k,
    decreases a.len(),
{
    if a.len() == k {
        lemma_deg_m_bound::<F>(c, a);
    } else {
        lemma_deg_m_below::<F>(c, a.drop_last(), k);
    }
}

/// The degree at model level: the highest index with a coefficient other
/// than the additive identity, or 0 for an identically zero polynomial.
pub open spec fn deg_m<F: Field>(c: Seq<int>, a: Seq<Seq<int>>) -> int
    decreases a.len(),
{
    if a.len() == 0 {
        0
    } else if a[a.len() - 1] != F::zero_model(c) {
        a.len() - 1
    } else {
        deg_m::<F>(c, a.drop_last())
    }
}

/// The minimal degree at model level: the lowest index with a coefficient
/// other than the additive identity, or the storage length for an
/// identically zero polynomial.
pub open spec fn mindeg_m<F: Field>(c: Seq<int>, a: Seq<Seq<int>>) -> int
    decreases a.len(),
{
    if a.len() == 0 {
        0
    } else if a[0] != F::zero_model(c) {
        0
    } else {
        1 + mindeg_m::<F>(c, a.subrange(1, a.len() as int))
    }
}

/// The degree never exceeds the last storage index.
pub proof fn lemma_deg_m_bound<F: Field>(c: Seq<int>, a: Seq<Seq<int>>)
    ensures
        0 <= deg_m::<F>(c, a),
        a.len() > 0 ==> deg_m::<F>(c, a) < a.len(),
        a.len() == 0 ==> deg_m::<F>(c, a) == 0,
    decreases a.len(),
{
    if a.len() > 0 && a[a.len() - 1] == F::zero_model(c) {
        lemma_deg_m_bound::<F>(c, a.drop_last());
    }
}

/// On an identically zero polynomial the degree reports 0.
pub proof fn lemma_deg_m_all_zero<F: Field>(c: Seq<int>, a: Seq<Seq<int>>)
    requires
        forall|k: int| 0 <= k < a.len() ==> a[k] == F::zero_model(c),
    ensures
        deg_m::<F>(c, a) == 0,
    decreases a.len(),
{
    if a.len() > 0 {
        lemma_deg_m_all_zero::<F>(c, a.drop_last());
    }
}

/// The degree is the index of the highest coefficient other than the
/// additive identity.
pub proof fn lemma_deg_m_found<F: Field>(c: Seq<int>, a: Seq<Seq<int>>, j: int)
    requires
        0 <= j < a.len(),
        a[j] != F::zero_model(c),
        forall|k: int| j < k < a.len() ==> a[k] == F::zero_model(c),
    ensures
        deg_m::<F>(c, a) == j,
    decreases a.len(),
{
    if j < a.len() - 1 {
        lemma_deg_m_found::<F>(c, a.drop_last(), j);
    }
}

/// Everything above the degree is the additive identity.
pub proof fn lemma_deg_m_above<F: Field>(c: Seq<int>, a: Seq<Seq<int>>, k: int)
    requires
        deg_m::<F>(c, a) < k < a.len(),
    ensures
        a[k] == F::zero_model(c),
    decreases a.len(),
{
    lemma_deg_m_bound::<F>(c, a);
    if k == a.len() - 1 {
        if a[k] != F::zero_model(c) {
            assert(deg_m::<F>(c, a) == k);
        }
    } else {
        if a[a.len() - 1] != F::zero_model(c) {
            assert(deg_m::<F>(c, a) == a.len() - 1);
        } else {
            lemma_deg_m_above::<F>(c, a.drop_last(), k);
        }
    }
}

/// One reduction step of polynomial long division at index `i`: with
/// `t = v[i] / b[db]`, subtracts `t * x^(i - db) * b` from `v`, touching
/// exactly the entries from `i - db` to `i`.
pub open spec fn prem_step<F: Field>(
    c: Seq<int>,
    v: Seq<Seq<int>>,
    b: Seq<Seq<int>>,
    db: int,
    i: int,
) -> Seq<Seq<int>> {
    let t = F::mul_model(c, v[i], F::inv_model(c, b[db]));
    Seq::new(
        v.len(),
        |m: int|
            if i - db <= m <= i {
                F::add_model(c, v[m], F::neg_model(c, F::mul_model(c, t, b[db - (i - m)])))
            } else {
                v[m]
            },
    )
}

/// The long-division state after processing the indices from `i` down to
/// `stop`, highest first.
pub open spec fn prem_from<F: Field>(
    c: Seq<int>,
    v: Seq<Seq<int>>,
    b: Seq<Seq<int>>,
    db: int,
    stop: int,
    i: int,
) -> Seq<Seq<int>>
    decreases i + 1 - stop,
{
    if i < stop {
        v
    } else {
        prem_from::<F>(c, prem_step::<F>(c, v, b, db, i), b, db, stop, i - 1)
    }
}

/// The Euclidean remainder at model level: the long-division state after
/// processing the indices from `deg(a)` down to `deg(b)`.
pub open spec fn prem_model<F: Field>(c: Seq<int>, a: Seq<Seq<int>>, b: Seq<Seq<int>>) -> Seq<
    Seq<int>,
> {
    let db = deg_m::<F>(c, b);
    prem_from::<F>(c, a, b, db, db, deg_m::<F>(c, a))
}

/// The number of quotient coefficients long division produces.
pub open spec fn quot_len_m<F: Field>(c: Seq<int>, a: Seq<Seq<int>>, b: Seq<Seq<int>>) -> int {
    let db = deg_m::<F>(c, b);
    let da = deg_m::<F>(c, a);
    if da >= db {
        da - db + 1
    } else {
        1
    }
}

/// The quotient coefficient of degree `s` that long division produces: the
/// `t` computed when index `s + deg(b)` is processed, on the state the
/// higher indices left behind.
pub open spec fn quot_entry<F: Field>(
    c: Seq<int>,
    a: Seq<Seq<int>>,
    b: Seq<Seq<int>>,
    s: int,
) -> Seq<int> {
    let db = deg_m::<F>(c, b);
    let da = deg_m::<F>(c, a);
    let i = s + db;
    let vpre = prem_from::<F>(c, a, b, db, i + 1, da);
    F::mul_model(c, vpre[i], F::inv_model(c, b[db]))
}

/// The full quotient of polynomial long division, lowest degree first: for
/// a dividend of lower degree than the divisor it is the single zero
/// coefficient, else the `t` factors that the reduction steps compute.
pub open spec fn quot_models<F: Field>(c: Seq<int>, a: Seq<Seq<int>>, b: Seq<Seq<int>>) -> Seq<
    Seq<int>,
> {
    Seq::new(
        quot_len_m::<F>(c, a, b) as nat,
        |s: int|
            if deg_m::<F>(c, a) >= deg_m::<F>(c, b) {
                quot_entry::<F>(c, a, b, s)
            } else {
                F::zero_model(c)
            },
    )
}

/// The partial quotient after the long-division steps above index `i` have
/// run: entries above `i - deg(b)` are filled in, the rest still the
/// additive identity.
pub open spec fn quot_partial<F: Field>(
    c: Seq<int>,
    a: Seq<Seq<int>>,
    b: Seq<Seq<int>>,
    i: int,
) -> Seq<Seq<int>> {
    Seq::new(
        quot_len_m::<F>(c, a, b) as nat,
        |s: int|
            if s > i - deg_m::<F>(c, b) {
                quot_entry::<F>(c, a, b, s)
            } else {
                F::zero_model(c)
            },
    )
}

/// Convolution with a first operand whose coefficients are all the
/// additive identity yields the additive identity everywhere.
pub proof fn lemma_conv_zero_lhs<F: Field>(c: Seq<int>, a: Seq<Seq<int>>, b: Seq<Seq<int>>, m: int)
    requires
        F::ctx_wf(c),
        forall|i: int| 0 <= i < a.len() ==> a[i] == F::zero_model(c),
        forall|j: int| 0 <= j < b.len() ==> F::val_wf(c, #[trigger] b[j]),
    ensures
        conv_entry::<F>(c, a, b, m) == F::zero_model(c),
{
    let ts = conv_terms::<F>(c, a, b, m);
    F::lemma_zero_wf(c);
    assert forall|i: int| 0 <= i < a.len() implies ts[i] == F::zero_model(c) by {
        if 0 <= m - i < b.len() {
            F::lemma_mul_comm(c, F::zero_model(c), b[m - i]);
            F::lemma_mul_zero(c, b[m - i]);
        }
    }
    crate::field::lemma_acc_zero::<F>(c, ts, a.len() as int);
}

/// Every quotient coefficient is a valid field value.
pub proof fn lemma_quot_entry_wf<F: Field>(c: Seq<int>, a: Seq<Seq<int>>, b: Seq<Seq<int>>, s: int)
    requires
        F::ctx_wf(c),
        a.len() >= 1,
        b.len() >= 1,
        forall|m: int| 0 <= m < a.len() ==> F::val_wf(c, #[trigger] a[m]),
        forall|j: int| 0 <= j < b.len() ==> F::val_wf(c, #[trigger] b[j]),
        0 <= s,
        s + deg_m::<F>(c, b) <= deg_m::<F>(c, a),
    ensures
        F::val_wf(c, quot_entry::<F>(c, a, b, s)),
{
    let db = deg_m::<F>(c, b);
    let da = deg_m::<F>(c, a);
    lemma_deg_m_bound::<F>(c, a);
    lemma_deg_m_bound::<F>(c, b);
    lemma_prem_from_wf::<F>(c, a, b, db, s + db + 1, da);
    F::lemma_inv_wf(c, b[db]);
    F::lemma_mul_wf(
        c,
        prem_from::<F>(c, a, b, db, s + db + 1, da)[s + db],
        F::inv_model(c, b[db]),
    );
}

/// Lowering the stop index by one applies one more reduction step to the
/// long-division state.
pub proof fn lemma_prem_peel<F: Field>(
    c: Seq<int>,
    v: Seq<Seq<int>>,
    b: Seq<Seq<int>>,
    db: int,
    stop: int,
    i: int,
)
    requires
        stop - 1 <= i,
    ensures
        prem_from::<F>(c, v, b, db, stop - 1, i) == prem_step::<F>(
            c,
            prem_from::<F>(c, v, b, db, stop, i),
            b,
            db,
            stop - 1,
        ),
    decreases i + 1 - stop,
{
    if i < stop {
        assert(prem_from::<F>(c, v, b, db, stop, i) == v);
        if i == stop - 1 {
            let w = prem_step::<F>(c, v, b, db, i);
            assert(prem_from::<F>(c, v, b, db, stop - 1, i) == prem_from::<F>(
                c,
                w,
                b,
                db,
                stop - 1,
                i - 1,
            ));
            assert(prem_from::<F>(c, w, b, db, stop - 1, i - 1) == w);
        }
    } else {
        let w = prem_step::<F>(c, v, b, db, i);
        assert(prem_from::<F>(c, v, b, db, stop - 1, i) == prem_from::<F>(
            c,
            w,
            b,
            db,
            stop - 1,
            i - 1,
        ));
        assert(prem_from::<F>(c, v, b, db, stop, i) == prem_from::<F>(c, w, b, db, stop, i - 1));
        lemma_prem_peel::<F>(c, w, b, db, stop, i - 1);
    }
}

impl<F: Field> Poly<F> {
    /// Builds a polynomial from a literal coefficient list given highest
    /// degree first; coefficients are stored lowest degree first.
    pub fn new(v: Vec<F>) -> (r: Poly<F>)
        ensures
            r@.len() == v@.len(),
            forall|i: int| 0 <= i < v@.len() ==> r@[i] == v@[v@.len() - 1 - i],
    {
        let mut src = v;
        let ghost orig = src@;
        let mut out: Vec<F> = Vec::new();
        while src.len() > 0
            invariant
                src@ == orig.take(orig.len() - out@.len()),
                out@.len() <= orig.len(),
                forall|i: int| 0 <= i < out@.len() ==> out@[i] == orig[orig.len() - 1 - i],
            decreases src@.len(),
        {
            let x = src.pop().unwrap();
            out.push(x);
            proof {
                assert(src@ =~= orig.take(orig.len() - out@.len()));
            }
        }
        Poly { v: out }
    }

    /// Builds a polynomial directly from coefficients given lowest degree
    /// first, as they are stored.
    pub fn from_coeffs(v: Vec<F>) -> (r: Poly<F>)
        ensures
            r@ == v@,
    {
        Poly { v }
    }

    /// The first `n` coefficients, as a polynomial.
    pub fn truncated(&self, n: usize) -> (r: Poly<F>)
        requires
            n <= self@.len(),
        ensures
            r@.len() == n,
            forall|i: int|
                0 <= i < n as int ==> (#[trigger] r@[i]).context_model()
                    == self@[i].context_model() && r@[i].value_model() == self@[i].value_model(),
    {
        let mut out: Vec<F> = Vec::new();
        let mut i: usize = 0;
        while i < n
            invariant
                i <= n,
                n <= self@.len(),
                out@.len() == i,
                forall|k: int|
                    0 <= k < i as int ==> (#[trigger] out@[k]).context_model()
                        == self@[k].context_model() && out@[k].value_model()
                        == self@[k].value_model(),
            decreases n - i,
        {
            out.push(self.v[i].dup());
            i += 1;
        }
        Poly { v: out }
    }

    /// The polynomial with no stored coefficients.
    pub fn empty() -> (r: Poly<F>)
        ensures
            r@.len() == 0,
    {
        Poly { v: Vec::new() }
    }

    /// The zero polynomial of the field that `like` belongs to: one stored
    /// coefficient, the additive identity.
    pub fn zero(like: &F) -> (r: Poly<F>)
        requires
            F::ctx_wf(like.context_model()),
        ensures
            r@.len() == 1,
            r@[0].context_model() == like.context_model(),
            r@[0].value_model() == F::zero_model(like.context_model()),
            pwf(r@),
    {
        let mut out: Vec<F> = Vec::new();
        out.push(like.zero_of());
        Poly { v: out }
    }

    /// The unit polynomial of the field that `like` belongs to: one stored
    /// coefficient, the multiplicative identity.
    pub fn one(like: &F) -> (r: Poly<F>)
        requires
            F::ctx_wf(like.context_model()),
        ensures
            r@.len() == 1,
            r@[0].context_model() == like.context_model(),
            r@[0].value_model() == F::one_model(like.context_model()),
            pwf(r@),
    {
        let mut out: Vec<F> = Vec::new();
        out.push(like.one_of());
        Poly { v: out }
    }

    /// The highest storage index, whatever its coefficient.
    pub fn maxdeg(&self) -> (r: usize)
        requires
            self@.len() >= 1,
        ensures
            r as int == self@.len() - 1,
    {
        self.v.len() - 1
    }

    /// The degree: the highest index with a coefficient other than the
    /// additive identity, or 0 for an identically zero polynomial.
    pub fn deg(&self) -> (r: usize)
        requires
            pwf(self@),
        ensures
            r as int == deg_m::<F>(pctx(self@), models(self@)),
            self@.len() > 0 ==> (r as int) < self@.len(),
    {
        let ghost c = pctx(self@);
        let ghost ms = models(self@);
        let mut i: usize = self.v.len();
        while i > 0
            invariant
                i <= self@.len(),
                pwf(self@),
                c == pctx(self@),
                ms == models(self@),
                forall|k: int| i <= k < self@.len() ==> ms[k] == F::zero_model(c),
            decreases i,
        {
            i -= 1;
            if !self.v[i].is_zero() {
                proof {
                    lemma_deg_m_found::<F>(c, ms, i as int);
                }
                return i;
            }
        }
        proof {
            lemma_deg_m_all_zero::<F>(c, ms);
        }
        0
    }

    /// The minimal degree: the lowest index with a coefficient other than
    /// the additive identity, or the storage length for an identically zero
    /// polynomial.
    pub fn mindeg(&self) -> (r: usize)
        requires
            pwf(self@),
        ensures
            r as int == mindeg_m::<F>(pctx(self@), models(self@)),
            (r as int) <= self@.len(),
    {
        let ghost c = pctx(self@);
        let ghost ms = models(self@);
        proof {
            assert(ms.subrange(0, ms.len() as int) =~= ms);
        }
        let mut i: usize = 0;
        while i < self.v.len()
            invariant
                i <= self@.len(),
                pwf(self@),
                c == pctx(self@),
                ms == models(self@),
                mindeg_m::<F>(c, ms) == i + mindeg_m::<F>(c, ms.subrange(i as int, ms.len() as int)),
            decreases self@.len() - i,
        {
            if !self.v[i].is_zero() {
                proof {
                    assert(ms.subrange(i as int, ms.len() as int)[0] == ms[i as int]);
                }
                return i;
            }
            proof {
                let tail = ms.subrange(i as int, ms.len() as int);
                assert(tail[0] == ms[i as int]);
                assert(tail.subrange(1, tail.len() as int) =~= ms.subrange(
                    i + 1,
                    ms.len() as int,
                ));
            }
            i += 1;
        }
        proof {
            assert(ms.subrange(self@.len() as int, ms.len() as int) =~= Seq::<Seq<int>>::empty());
        }
        i
    }

    /// The coefficient at index `i` (degree `i`).
    pub fn coeff(&self, i: usize) -> (r: &F)
        requires
            i < self@.len(),
        ensures
            *r == self@[i as int],
    {
        &self.v[i]
    }

    /// The full stored coefficient sequence, lowest degree first.
    pub fn coefficients(&self) -> (r: &Vec<F>)
        ensures
            r@ == self@,
    {
        &self.v
    }

    /// A polynomial with the same coefficient models.
    pub fn duplicate(&self) -> (r: Poly<F>)
        ensures
            r@.len() == self@.len(),
            forall|i: int|
                0 <= i < self@.len() ==> (#[trigger] r@[i]).context_model()
                    == self@[i].context_model() && r@[i].value_model() == self@[i].value_model(),
    {
        let mut out: Vec<F> = Vec::new();
        let mut i: usize = 0;
        while i < self.v.len()
            invariant
                i <= self@.len(),
                out@.len() == i,
                forall|k: int|
                    0 <= k < i as int ==> (#[trigger] out@[k]).context_model()
                        == self@[k].context_model() && out@[k].value_model()
                        == self@[k].value_model(),
            decreases self@.len() - i,
        {
            out.push(self.v[i].dup());
            i += 1;
        }
        Poly { v: out }
    }

    /// Structural equality of the coefficient models.
    pub fn equals(&self, rhs: &Poly<F>) -> (b: bool)
        requires
            pwf(self@),
            pwf(rhs@),
            same_pctx(self@, rhs@),
        ensures
            b == (models(self@) == models(rhs@)),
    {
        if self.v.len() != rhs.v.len() {
            proof {
                assert(models(self@).len() != models(rhs@).len());
            }
            return false;
        }
        let mut i: usize = 0;
        while i < self.v.len()
            invariant
                i <= self@.len(),
                self@.len() == rhs@.len(),
                pwf(self@),
                pwf(rhs@),
                same_pctx(self@, rhs@),
                forall|k: int| 0 <= k < i as int ==> models(self@)[k] == models(rhs@)[k],
            decreases self@.len() - i,
        {
            if !self.v[i].equals(&rhs.v[i]) {
                proof {
                    assert(models(self@)[i as int] != models(rhs@)[i as int]);
                }
                return false;
            }
            i += 1;
        }
        proof {
            assert(models(self@) =~= models(rhs@));
        }
        true
    }

    /// Coefficient-wise sum over the padded union of both operands'
    /// lengths; the shorter operand is treated as zero-extended.
    pub fn add(&self, rhs: &Poly<F>) -> (r: Poly<F>)
        requires
            pwf(self@),
            pwf(rhs@),
            same_pctx(self@, rhs@),
        ensures
            r@.len() == if self@.len() >= rhs@.len() {
                self@.len()
            } else {
                rhs@.len()
            },
            forall|i: int|
                0 <= i < self@.len() && i < rhs@.len() ==> (#[trigger] r@[i]).value_model()
                    == F::add_model(pctx(self@), self@[i].value_model(), rhs@[i].value_model()),
            forall|i: int|
                rhs@.len() <= i < self@.len() ==> (#[trigger] r@[i]).value_model()
                    == self@[i].value_model(),
            forall|i: int|
                self@.len() <= i < rhs@.len() ==> (#[trigger] r@[i]).value_model()
                    == rhs@[i].value_model(),
            forall|i: int|
                0 <= i < r@.len() ==> (#[trigger] r@[i]).context_model() == joint_ctx(self@, rhs@),
            pwf(r@),
    {
        let la = self.v.len();
        let lb = rhs.v.len();
        let n: usize = if la >= lb {
            la
        } else {
            lb
        };
        let mut out: Vec<F> = Vec::new();
        let mut i: usize = 0;
        while i < n
            invariant
                i <= n,
                n == if self@.len() >= rhs@.len() {
                    self@.len()
                } else {
                    rhs@.len()
                },
                la == self@.len(),
                lb == rhs@.len(),
                pwf(self@),
                pwf(rhs@),
                same_pctx(self@, rhs@),
                out@.len() == i,
                forall|k: int|
                    0 <= k < i as int && k < la as int && k < lb as int ==> (#[trigger] out@[k]).value_model()
                        == F::add_model(
                        pctx(self@),
                        self@[k].value_model(),
                        rhs@[k].value_model(),
                    ),
                forall|k: int|
                    lb as int <= k < i as int && k < la as int ==> (#[trigger] out@[k]).value_model()
                        == self@[k].value_model(),
                forall|k: int|
                    la as int <= k < i as int && k < lb as int ==> (#[trigger] out@[k]).value_model()
                        == rhs@[k].value_model(),
                forall|k: int|
                    0 <= k < i as int ==> (#[trigger] out@[k]).context_model() == joint_ctx(
                        self@,
                        rhs@,
                    ) && F::val_wf(joint_ctx(self@, rhs@), out@[k].value_model()),
            decreases n - i,
        {
            if i < la && i < lb {
                let s = self.v[i].add(&rhs.v[i]);
                out.push(s);
            } else if i < la {
                out.push(self.v[i].dup());
            } else {
                out.push(rhs.v[i].dup());
            }
            i += 1;
        }
        Poly { v: out }
    }

    /// Replaces this polynomial with its sum with `rhs`.
    pub fn add_assign(&mut self, rhs: &Poly<F>)
        requires
            pwf(old(self)@),
            pwf(rhs@),
            same_pctx(old(self)@, rhs@),
        ensures
            final(self)@.len() == if old(self)@.len() >= rhs@.len() {
                old(self)@.len()
            } else {
                rhs@.len()
            },
            forall|i: int|
                0 <= i < old(self)@.len() && i < rhs@.len() ==> (#[trigger] final(self)@[i]).value_model() == F::add_model(
                    pctx(old(self)@),
                    old(self)@[i].value_model(),
                    rhs@[i].value_model(),
                ),
            forall|i: int|
                rhs@.len() <= i < old(self)@.len() ==> (#[trigger] final(self)@[i]).value_model()
                    == old(self)@[i].value_model(),
            forall|i: int|
                old(self)@.len() <= i < rhs@.len() ==> (#[trigger] final(self)@[i]).value_model()
                    == rhs@[i].value_model(),
            forall|i: int|
                0 <= i < final(self)@.len() ==> (#[trigger] final(self)@[i]).context_model()
                    == joint_ctx(old(self)@, rhs@),
            pwf(final(self)@),
    {
        let r = self.add(rhs);
        *self = r;
    }

    /// Coefficient-wise additive inverse.
    pub fn neg(&self) -> (r: Poly<F>)
        requires
            pwf(self@),
        ensures
            r@.len() == self@.len(),
            forall|i: int|
                0 <= i < self@.len() ==> (#[trigger] r@[i]).value_model() == F::neg_model(
                    pctx(self@),
                    self@[i].value_model(),
                ) && r@[i].context_model() == pctx(self@),
            pwf(r@),
    {
        let mut out: Vec<F> = Vec::new();
        let mut i: usize = 0;
        while i < self.v.len()
            invariant
                i <= self@.len(),
                pwf(self@),
                out@.len() == i,
                forall|k: int|
                    0 <= k < i as int ==> (#[trigger] out@[k]).value_model() == F::neg_model(
                        pctx(self@),
                        self@[k].value_model(),
                    ) && out@[k].context_model() == pctx(self@) && F::val_wf(
                        pctx(self@),
                        out@[k].value_model(),
                    ),
            decreases self@.len() - i,
        {
            out.push(self.v[i].neg());
            i += 1;
        }
        Poly { v: out }
    }

    /// Coefficient-wise difference over the padded union of both operands'
    /// lengths: the sum with the additive inverse of `rhs`.
    pub fn sub(&self, rhs: &Poly<F>) -> (r: Poly<F>)
        requires
            pwf(self@),
            pwf(rhs@),
            same_pctx(self@, rhs@),
        ensures
            r@.len() == if self@.len() >= rhs@.len() {
                self@.len()
            } else {
                rhs@.len()
            },
            forall|i: int|
                0 <= i < self@.len() && i < rhs@.len() ==> (#[trigger] r@[i]).value_model()
                    == F::add_model(
                    pctx(self@),
                    self@[i].value_model(),
                    F::neg_model(pctx(self@), rhs@[i].value_model()),
                ),
            forall|i: int|
                rhs@.len() <= i < self@.len() ==> (#[trigger] r@[i]).value_model()
                    == self@[i].value_model(),
            forall|i: int|
                self@.len() <= i < rhs@.len() ==> (#[trigger] r@[i]).value_model() == F::neg_model(
                    pctx(rhs@),
                    rhs@[i].value_model(),
                ),
            forall|i: int|
                0 <= i < r@.len() ==> (#[trigger] r@[i]).context_model() == joint_ctx(self@, rhs@),
            pwf(r@),
    {
        let la = self.v.len();
        let lb = rhs.v.len();
        let n: usize = if la >= lb {
            la
        } else {
            lb
        };
        let mut out: Vec<F> = Vec::new();
        let mut i: usize = 0;
        while i < n
            invariant
                i <= n,
                n == if self@.len() >= rhs@.len() {
                    self@.len()
                } else {
                    rhs@.len()
                },
                la == self@.len(),
                lb == rhs@.len(),
                pwf(self@),
                pwf(rhs@),
                same_pctx(self@, rhs@),
                out@.len() == i,
                forall|k: int|
                    0 <= k < i as int && k < la as int && k < lb as int ==> (#[trigger] out@[k]).value_model()
                        == F::add_model(
                        pctx(self@),
                        self@[k].value_model(),
                        F::neg_model(pctx(self@), rhs@[k].value_model()),
                    ),
                forall|k: int|
                    lb as int <= k < i as int && k < la as int ==> (#[trigger] out@[k]).value_model()
                        == self@[k].value_model(),
                forall|k: int|
                    la as int <= k < i as int && k < lb as int ==> (#[trigger] out@[k]).value_model()
                        == F::neg_model(pctx(rhs@), rhs@[k].value_model()),
                forall|k: int|
                    0 <= k < i as int ==> (#[trigger] out@[k]).context_model() == joint_ctx(
                        self@,
                        rhs@,
                    ) && F::val_wf(joint_ctx(self@, rhs@), out@[k].value_model()),
            decreases n - i,
        {
            if i < la && i < lb {
                let s = self.v[i].sub(&rhs.v[i]);
                out.push(s);
            } else if i < la {
                out.push(self.v[i].dup());
            } else {
                out.push(rhs.v[i].neg());
            }
            i += 1;
        }
        Poly { v: out }
    }

    /// Replaces this polynomial with its difference with `rhs`.
    pub fn sub_assign(&mut self, rhs: &Poly<F>)
        requires
            pwf(old(self)@),
            pwf(rhs@),
            same_pctx(old(self)@, rhs@),
        ensures
            final(self)@.len() == if old(self)@.len() >= rhs@.len() {
                old(self)@.len()
            } else {
                rhs@.len()
            },
            forall|i: int|
                0 <= i < old(self)@.len() && i < rhs@.len() ==> (#[trigger] final(self)@[i]).value_model() == F::add_model(
                    pctx(old(self)@),
                    old(self)@[i].value_model(),
                    F::neg_model(pctx(old(self)@), rhs@[i].value_model()),
                ),
            forall|i: int|
                rhs@.len() <= i < old(self)@.len() ==> (#[trigger] final(self)@[i]).value_model()
                    == old(self)@[i].value_model(),
            forall|i: int|
                old(self)@.len() <= i < rhs@.len() ==> (#[trigger] final(self)@[i]).value_model()
                    == F::neg_model(pctx(rhs@), rhs@[i].value_model()),
            forall|i: int|
                0 <= i < final(self)@.len() ==> (#[trigger] final(self)@[i]).context_model()
                    == joint_ctx(old(self)@, rhs@),
            pwf(final(self)@),
    {
        let r = self.sub(rhs);
        *self = r;
    }

    /// Ring multiplication: the full (schoolbook) convolution of the two
    /// coefficient sequences.  The output length is the sum of the operand
    /// lengths less one.
    pub fn mul(&self, rhs: &Poly<F>) -> (r: Poly<F>)
        requires
            self@.len() >= 1,
            rhs@.len() >= 1,
            self@.len() + rhs@.len() - 1 <= usize::MAX as int,
            pwf(self@),
            pwf(rhs@),
            pctx(self@) == pctx(rhs@),
        ensures
            r@.len() == self@.len() + rhs@.len() - 1,
            forall|m: int|
                0 <= m < r@.len() ==> (#[trigger] r@[m]).value_model() == conv_entry::<F>(
                    pctx(self@),
                    models(self@),
                    models(rhs@),
                    m,
                ) && r@[m].context_model() == pctx(self@),
            pwf(r@),
    {
        let ghost c = pctx(self@);
        let ghost am = models(self@);
        let ghost bm = models(rhs@);
        proof {
            assert(forall|k: int| 0 <= k < am.len() ==> F::val_wf(c, #[trigger] am[k]));
            assert(forall|k: int| 0 <= k < bm.len() ==> F::val_wf(c, #[trigger] bm[k]));
        }
        let la = self.v.len();
        let lb = rhs.v.len();
        let n: usize = la - 1 + lb;
        let z = self.v[0].zero_of();
        let mut out: Vec<F> = Vec::new();
        let mut k: usize = 0;
        while k < n
            invariant
                k <= n,
                out@.len() == k,
                F::ctx_wf(c),
                z.context_model() == c,
                z.value_model() == F::zero_model(c),
                forall|m: int|
                    0 <= m < k as int ==> (#[trigger] out@[m]).value_model() == F::zero_model(c)
                        && out@[m].context_model() == c,
            decreases n - k,
        {
            out.push(z.dup());
            k += 1;
        }
        let mut i: usize = 0;
        proof {
            F::lemma_zero_wf(c);
        }
        while i < la
            invariant
                i <= la,
                out@.len() == n,
                la == self@.len(),
                lb == rhs@.len(),
                n as int == la + lb - 1,
                pwf(self@),
                pwf(rhs@),
                pctx(self@) == pctx(rhs@),
                c == pctx(self@),
                am == models(self@),
                bm == models(rhs@),
                F::ctx_wf(c),
                forall|m: int|
                    0 <= m < n as int ==> (#[trigger] out@[m]).value_model() == acc_model::<F>(
                        c,
                        conv_terms::<F>(c, am, bm, m),
                        i as int,
                    ) && out@[m].context_model() == c && F::val_wf(c, out@[m].value_model()),
            decreases la - i,
        {
            let mut j: usize = 0;
            while j < lb
                invariant
                    i < la,
                    j <= lb,
                    out@.len() == n,
                    la == self@.len(),
                    lb == rhs@.len(),
                    n as int == la + lb - 1,
                    pwf(self@),
                    pwf(rhs@),
                    pctx(self@) == pctx(rhs@),
                    c == pctx(self@),
                    am == models(self@),
                    bm == models(rhs@),
                    F::ctx_wf(c),
                    forall|m: int|
                        0 <= m < n as int ==> (#[trigger] out@[m]).value_model() == acc_model::<F>(
                            c,
                            conv_terms::<F>(c, am, bm, m),
                            if 0 <= m - i < j as int {
                                i as int + 1
                            } else {
                                i as int
                            },
                        ) && out@[m].context_model() == c && F::val_wf(c, out@[m].value_model()),
                decreases lb - j,
            {
                let t = self.v[i].mul(&rhs.v[j]);
                let m0: usize = i + j;
                let s = out[m0].add(&t);
                proof {
                    let ts = conv_terms::<F>(c, am, bm, m0 as int);
                    assert(ts[i as int] == F::mul_model(c, am[i as int], bm[j as int]));
                    assert(s.value_model() == acc_model::<F>(c, ts, i as int + 1));
                }
                out.set(m0, s);
                j += 1;
            }
            proof {
                assert forall|m: int|
                    0 <= m < n as int implies (#[trigger] out@[m]).value_model()
                    == acc_model::<F>(c, conv_terms::<F>(c, am, bm, m), i as int + 1) by {
                    if !(0 <= m - i < lb as int) {
                        let ts = conv_terms::<F>(c, am, bm, m);
                        lemma_conv_terms_wf::<F>(c, am, bm, m);
                        crate::field::lemma_acc_wf::<F>(c, ts, i as int);
                        F::lemma_add_zero(c, acc_model::<F>(c, ts, i as int));
                        assert(ts[i as int] == F::zero_model(c));
                    }
                }
            }
            i += 1;
        }
        Poly { v: out }
    }

    /// Replaces this polynomial with its ring product with `rhs`.
    pub fn mul_assign(&mut self, rhs: &Poly<F>)
        requires
            old(self)@.len() >= 1,
            rhs@.len() >= 1,
            old(self)@.len() + rhs@.len() - 1 <= usize::MAX as int,
            pwf(old(self)@),
            pwf(rhs@),
            pctx(old(self)@) == pctx(rhs@),
        ensures
            final(self)@.len() == old(self)@.len() + rhs@.len() - 1,
            forall|m: int|
                0 <= m < final(self)@.len() ==> (#[trigger] final(self)@[m]).value_model()
                    == conv_entry::<F>(
                    pctx(old(self)@),
                    models(old(self)@),
                    models(rhs@),
                    m,
                ) && final(self)@[m].context_model() == pctx(old(self)@),
            pwf(final(self)@),
    {
        let r = self.mul(rhs);
        *self = r;
    }

    /// Euclidean remainder by polynomial long division: processes the
    /// indices from `deg(self)` down to `deg(rhs)`, at each subtracting the
    /// right multiple of `rhs` shifted into place.  A divisor whose leading
    /// coefficient (at its reported degree) is the additive identity has no
    /// invertible leading coefficient: that is reported as a division by
    /// zero, exactly then.
    pub fn rem(&self, rhs: &Poly<F>) -> (r: Result<Poly<F>, AlgebraError>)
        requires
            self@.len() >= 1,
            rhs@.len() >= 1,
            pwf(self@),
            pwf(rhs@),
            pctx(self@) == pctx(rhs@),
            F::order_model(pctx(self@)) <= u64::MAX as int,
        ensures
            (r is Err) <==> models(rhs@)[deg_m::<F>(pctx(rhs@), models(rhs@))] == F::zero_model(
                pctx(rhs@),
            ),
            r is Err ==> r->Err_0 == AlgebraError::DivisionByZero,
            r is Ok ==> (r->Ok_0)@.len() == self@.len(),
            r is Ok ==> models((r->Ok_0)@) == prem_model::<F>(
                pctx(self@),
                models(self@),
                models(rhs@),
            ),
            r is Ok ==> forall|k: int|
                0 <= k < self@.len() ==> (#[trigger] (r->Ok_0)@[k]).context_model() == pctx(self@),
            r is Ok ==> pwf((r->Ok_0)@),
    {
        let ghost c = pctx(self@);
        let ghost am = models(self@);
        let ghost bm = models(rhs@);
        let db = rhs.deg();
        if rhs.v[db].is_zero() {
            return Err(AlgebraError::DivisionByZero);
        }
        let da = self.deg();
        let la = self.v.len();
        let lb = rhs.v.len();
        let mut w = self.duplicate();
        proof {
            assert(models(w@) =~= am);
        }
        let mut i: usize = da + 1;
        while i > db
            invariant
                i <= da + 1,
                (da as int) >= db as int ==> i >= db,
                (da as int) < db as int ==> i == da + 1,
                da as int == deg_m::<F>(c, am),
                db as int == deg_m::<F>(c, bm),
                la == self@.len(),
                lb == rhs@.len(),
                da < la,
                db < lb,
                pwf(self@),
                pwf(rhs@),
                pctx(self@) == pctx(rhs@),
                c == pctx(self@),
                am == models(self@),
                bm == models(rhs@),
                bm[db as int] != F::zero_model(c),
                F::ctx_wf(c),
                F::order_model(c) <= u64::MAX as int,
                w@.len() == self@.len(),
                models(w@) == prem_from::<F>(c, am, bm, db as int, i as int, da as int),
                forall|k: int|
                    0 <= k < w@.len() ==> (#[trigger] w@[k]).context_model() == c && F::val_wf(
                        c,
                        w@[k].value_model(),
                    ),
            decreases i,
        {
            i -= 1;
            let ghost vpre = models(w@);
            let tr = w.v[i].div(&rhs.v[db]);
            let t = match tr {
                Ok(t) => t,
                Err(e) => {
                    proof {
                        assert(false);
                    }
                    return Err(e);
                },
            };
            let mut j: usize = 0;
            while j <= db
                invariant
                    j <= db + 1,
                    db <= i <= da,
                    la == self@.len(),
                    lb == rhs@.len(),
                    da < la,
                    db < lb,
                    pwf(self@),
                    pwf(rhs@),
                    pctx(self@) == pctx(rhs@),
                    c == pctx(self@),
                    am == models(self@),
                    bm == models(rhs@),
                    F::ctx_wf(c),
                    w@.len() == self@.len(),
                    vpre.len() == w@.len(),
                    t.context_model() == c,
                    F::val_wf(c, t.value_model()),
                    t.value_model() == F::mul_model(
                        c,
                        vpre[i as int],
                        F::inv_model(c, bm[db as int]),
                    ),
                    forall|m: int|
                        0 <= m < w@.len() ==> (#[trigger] w@[m]).context_model() == c && F::val_wf(
                            c,
                            w@[m].value_model(),
                        ),
                    forall|m: int|
                        0 <= m < w@.len() ==> (#[trigger] w@[m]).value_model() == (if i - j < m
                            <= i as int {
                            prem_step::<F>(c, vpre, bm, db as int, i as int)[m]
                        } else {
                            vpre[m]
                        }),
                decreases db + 1 - j,
            {
                let prod = t.mul(&rhs.v[db - j]);
                let nv = w.v[i - j].sub(&prod);
                proof {
                    let m0 = i as int - j as int;
                    let step = prem_step::<F>(c, vpre, bm, db as int, i as int);
                    assert(step[m0] == F::add_model(
                        c,
                        vpre[m0],
                        F::neg_model(
                            c,
                            F::mul_model(c, t.value_model(), bm[db as int - (i as int - m0)]),
                        ),
                    ));
                    assert(nv.value_model() == step[m0]);
                }
                w.v.set(i - j, nv);
                j += 1;
            }
            proof {
                assert(models(w@) =~= prem_step::<F>(c, vpre, bm, db as int, i as int));
                lemma_prem_peel::<F>(c, am, bm, db as int, i as int + 1, da as int);
            }
        }
        proof {
            if (da as int) < db as int {
                assert(prem_from::<F>(c, am, bm, db as int, i as int, da as int) == am);
                assert(prem_model::<F>(c, am, bm) == am);
            }
        }
        Ok(w)
    }

    /// Polynomial long division, returning the quotient and the remainder.
    /// The remainder is exactly what [`Poly::rem`] computes; the quotient
    /// collects, lowest degree first, the factors `t` subtracted at each
    /// step, so that `self = quotient * rhs + remainder` over a divisor with
    /// an invertible leading coefficient.
    pub fn divrem(&self, rhs: &Poly<F>) -> (r: Result<(Poly<F>, Poly<F>), AlgebraError>)
        requires
            self@.len() >= 1,
            rhs@.len() >= 1,
            pwf(self@),
            pwf(rhs@),
            pctx(self@) == pctx(rhs@),
            F::order_model(pctx(self@)) <= u64::MAX as int,
        ensures
            (r is Err) <==> models(rhs@)[deg_m::<F>(pctx(rhs@), models(rhs@))] == F::zero_model(
                pctx(rhs@),
            ),
            r is Err ==> r->Err_0 == AlgebraError::DivisionByZero,
            r is Ok ==> (r->Ok_0).1@.len() == self@.len(),
            r is Ok ==> models((r->Ok_0).1@) == prem_model::<F>(
                pctx(self@),
                models(self@),
                models(rhs@),
            ),
            r is Ok ==> pwf((r->Ok_0).1@) && (r->Ok_0).1@.len() > 0 ==> pctx((r->Ok_0).1@) == pctx(
                self@,
            ),
            r is Ok ==> (r->Ok_0).0@.len() == quot_len_m::<F>(
                pctx(self@),
                models(self@),
                models(rhs@),
            ),
            r is Ok ==> forall|s: int|
                0 <= s < (r->Ok_0).0@.len() ==> (#[trigger] (r->Ok_0).0@[s]).context_model()
                    == pctx(self@),
            r is Ok && deg_m::<F>(pctx(self@), models(self@)) >= deg_m::<F>(
                pctx(rhs@),
                models(rhs@),
            ) ==> forall|s: int|
                0 <= s < (r->Ok_0).0@.len() ==> (#[trigger] (r->Ok_0).0@[s]).value_model()
                    == quot_entry::<F>(pctx(self@), models(self@), models(rhs@), s),
            r is Ok && deg_m::<F>(pctx(self@), models(self@)) < deg_m::<F>(
                pctx(rhs@),
                models(rhs@),
            ) ==> (r->Ok_0).0@[0].value_model() == F::zero_model(pctx(self@)),
            r is Ok ==> pwf((r->Ok_0).0@),
    {
        let ghost c = pctx(self@);
        let ghost am = models(self@);
        let ghost bm = models(rhs@);
        let db = rhs.deg();
        if rhs.v[db].is_zero() {
            return Err(AlgebraError::DivisionByZero);
        }
        let da = self.deg();
        let la = self.v.len();
        let lb = rhs.v.len();
        let qlen: usize = if da >= db {
            da - db + 1
        } else {
            1
        };
        let z = self.v[0].zero_of();
        let mut q: Vec<F> = Vec::new();
        let mut k: usize = 0;
        while k < qlen
            invariant
                k <= qlen,
                q@.len() == k,
                F::ctx_wf(c),
                z.context_model() == c,
                z.value_model() == F::zero_model(c),
                forall|s: int|
                    0 <= s < k as int ==> (#[trigger] q@[s]).value_model() == F::zero_model(c)
                        && q@[s].context_model() == c,
            decreases qlen - k,
        {
            q.push(z.dup());
            k += 1;
        }
        let mut w = self.duplicate();
        proof {
            F::lemma_zero_wf(c);
            assert(models(w@) =~= am);
        }
        let mut i: usize = da + 1;
        while i > db
            invariant
                i <= da + 1,
                (da as int) >= db as int ==> i >= db,
                (da as int) < db as int ==> i == da + 1,
                da as int == deg_m::<F>(c, am),
                db as int == deg_m::<F>(c, bm),
                la == self@.len(),
                lb == rhs@.len(),
                da < la,
                db < lb,
                qlen as int == quot_len_m::<F>(c, am, bm),
                pwf(self@),
                pwf(rhs@),
                pctx(self@) == pctx(rhs@),
                c == pctx(self@),
                am == models(self@),
                bm == models(rhs@),
                bm[db as int] != F::zero_model(c),
                F::ctx_wf(c),
                F::order_model(c) <= u64::MAX as int,
                w@.len() == self@.len(),
                models(w@) == prem_from::<F>(c, am, bm, db as int, i as int, da as int),
                forall|m: int|
                    0 <= m < w@.len() ==> (#[trigger] w@[m]).context_model() == c && F::val_wf(
                        c,
                        w@[m].value_model(),
                    ),
                q@.len() == qlen,
                forall|s: int|
                    0 <= s < qlen as int ==> (#[trigger] q@[s]).context_model() == c && F::val_wf(
                        c,
                        q@[s].value_model(),
                    ),
                (da as int) >= db as int ==> forall|s: int|
                    i as int - db as int <= s < qlen as int ==> (#[trigger] q@[s]).value_model()
                        == quot_entry::<F>(c, am, bm, s),
                forall|s: int|
                    0 <= s < i as int - db as int ==> (#[trigger] q@[s]).value_model()
                        == F::zero_model(c),
                (da as int) < db as int ==> forall|s: int|
                    0 <= s < qlen as int ==> (#[trigger] q@[s]).value_model() == F::zero_model(c),
            decreases i,
        {
            i -= 1;
            let ghost vpre = models(w@);
            let tr = w.v[i].div(&rhs.v[db]);
            let t = match tr {
                Ok(t) => t,
                Err(e) => {
                    proof {
                        assert(false);
                    }
                    return Err(e);
                },
            };
            let mut j: usize = 0;
            while j <= db
                invariant
                    j <= db + 1,
                    db <= i <= da,
                    la == self@.len(),
                    lb == rhs@.len(),
                    da < la,
                    db < lb,
                    pwf(self@),
                    pwf(rhs@),
                    pctx(self@) == pctx(rhs@),
                    c == pctx(self@),
                    am == models(self@),
                    bm == models(rhs@),
                    F::ctx_wf(c),
                    w@.len() == self@.len(),
                    vpre.len() == w@.len(),
                    t.context_model() == c,
                    F::val_wf(c, t.value_model()),
                    t.value_model() == F::mul_model(
                        c,
                        vpre[i as int],
                        F::inv_model(c, bm[db as int]),
                    ),
                    forall|m: int|
                        0 <= m < w@.len() ==> (#[trigger] w@[m]).context_model() == c && F::val_wf(
                            c,
                            w@[m].value_model(),
                        ),
                    forall|m: int|
                        0 <= m < w@.len() ==> (#[trigger] w@[m]).value_model() == (if i - j < m
                            <= i as int {
                            prem_step::<F>(c, vpre, bm, db as int, i as int)[m]
                        } else {
                            vpre[m]
                        }),
                decreases db + 1 - j,
            {
                let prod = t.mul(&rhs.v[db - j]);
                let nv = w.v[i - j].sub(&prod);
                proof {
                    let m0 = i as int - j as int;
                    let step = prem_step::<F>(c, vpre, bm, db as int, i as int);
                    assert(step[m0] == F::add_model(
                        c,
                        vpre[m0],
                        F::neg_model(
                            c,
                            F::mul_model(c, t.value_model(), bm[db as int - (i as int - m0)]),
                        ),
                    ));
                    assert(nv.value_model() == step[m0]);
                }
                w.v.set(i - j, nv);
                j += 1;
            }
            q.set(i - db, t);
            proof {
                assert(models(w@) =~= prem_step::<F>(c, vpre, bm, db as int, i as int));
                lemma_prem_peel::<F>(c, am, bm, db as int, i as int + 1, da as int);
            }
        }
        proof {
            if (da as int) < db as int {
                assert(prem_from::<F>(c, am, bm, db as int, i as int, da as int) == am);
                assert(prem_model::<F>(c, am, bm) == am);
            }
        }
        Ok((Poly { v: q }, w))
    }

    /// Replaces this polynomial with its Euclidean remainder by `rhs`; on a
    /// division by zero the polynomial is left unchanged.
    pub fn rem_assign(&mut self, rhs: &Poly<F>) -> (r: Result<(), AlgebraError>)
        requires
            old(self)@.len() >= 1,
            rhs@.len() >= 1,
            pwf(old(self)@),
            pwf(rhs@),
            pctx(old(self)@) == pctx(rhs@),
            F::order_model(pctx(old(self)@)) <= u64::MAX as int,
        ensures
            (r is Err) <==> models(rhs@)[deg_m::<F>(pctx(rhs@), models(rhs@))] == F::zero_model(
                pctx(rhs@),
            ),
            r is Err ==> r->Err_0 == AlgebraError::DivisionByZero,
            r is Err ==> final(self)@ == old(self)@,
            r is Ok ==> final(self)@.len() == old(self)@.len(),
            r is Ok ==> models(final(self)@) == prem_model::<F>(
                pctx(old(self)@),
                models(old(self)@),
                models(rhs@),
            ),
            r is Ok ==> forall|k: int|
                0 <= k < final(self)@.len() ==> (#[trigger] final(self)@[k]).context_model()
                    == pctx(old(self)@),
            r is Ok ==> pwf(final(self)@),
    {
        match self.rem(rhs) {
            Ok(w) => {
                *self = w;
                Ok(())
            },
            Err(e) => Err(e),
        }
    }
}

} // verus!
