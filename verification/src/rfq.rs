//! The extension field GF(p^k): residues of prime-field polynomials modulo
//! a fixed irreducible polynomial `R` of degree `k`.
//!
//! An element wraps a polynomial over the prime field together with its
//! modulus polynomial; the pair (characteristic, modulus coefficients) is
//! the explicit, immutable field context.  Every element is kept canonical:
//! its representative stores exactly `k` coefficients, so its degree is
//! always below `k`.  The caller guarantees that `R` is irreducible over
//! GF(p); a reducible modulus yields mathematically meaningless but
//! well-defined results.
//!
//! The context model is `[p] ++ coefficients of R` (lowest degree first);
//! the value model is the `k` residues of the representative.

use crate::errors::AlgebraError;
use crate::field::Field;
use crate::poly::{
    conv_entry, deg_m, lemma_conv_entry_comm, lemma_conv_entry_wf, lemma_conv_impulse,
    lemma_conv_zero_rhs, lemma_deg_m_below, lemma_deg_m_bound,
    lemma_deg_m_found, lemma_prem_from_wf, models, pctx, prem_model, pwf, Poly,
};
use crate::rzp::RZp;
use crate::zmod::{
    add_z, in_field, lemma_add_z_assoc, lemma_add_z_comm, lemma_add_z_neg, lemma_add_z_wf,
    lemma_add_z_zero, lemma_neg_z_wf, mul_z, neg_z,
};
use vstd::arithmetic::power::{
    lemma_pow0, lemma_pow1, lemma_pow_adds, lemma_pow_increases, lemma_pow_positive, pow,
};
use vstd::prelude::*;

verus! {

/// One element of the extension field: a canonical representative
/// polynomial of degree below `k`, and the degree-`k` modulus polynomial.
pub struct RFq {
    x: Poly<RZp>,
    r: Poly<RZp>,
}

/// The flat residues of a sequence of prime-field element models.
pub open spec fn flat(m: Seq<Seq<int>>) -> Seq<int> {
    Seq::new(m.len(), |i: int| m[i][0])
}

/// Residues lifted into prime-field element models.
pub open spec fn lift(v: Seq<int>) -> Seq<Seq<int>> {
    Seq::new(v.len(), |i: int| seq![v[i]])
}

/// The prime-field context inside an extension context.
pub open spec fn base_ctx(c: Seq<int>) -> Seq<int> {
    seq![c[0]]
}

/// The extension degree recorded in a context.
pub open spec fn ext_deg(c: Seq<int>) -> int {
    c.len() - 2
}

/// The modulus polynomial recorded in a context, as prime-field models.
pub open spec fn modpoly(c: Seq<int>) -> Seq<Seq<int>> {
    lift(c.subrange(1, c.len() as int))
}

/// An extension context built from a characteristic and the modulus
/// coefficients, lowest degree first.
pub open spec fn make_ctx(p: int, rm: Seq<int>) -> Seq<int> {
    seq![p] + rm
}

/// Model-level addition: coefficient-wise, modulo the characteristic.
pub open spec fn addx(c: Seq<int>, x: Seq<int>, y: Seq<int>) -> Seq<int> {
    Seq::new(x.len(), |i: int| add_z(c[0], x[i], y[i]))
}

/// Model-level additive inverse: coefficient-wise.
pub open spec fn negx(c: Seq<int>, x: Seq<int>) -> Seq<int> {
    Seq::new(x.len(), |i: int| neg_z(c[0], x[i]))
}

/// The model of the additive identity: `k` zero residues.
pub open spec fn zerox(c: Seq<int>) -> Seq<int> {
    Seq::new(ext_deg(c) as nat, |i: int| 0int)
}

/// The model of the multiplicative identity: the unit residue and `k - 1`
/// zero residues.
pub open spec fn onex(c: Seq<int>) -> Seq<int> {
    Seq::new(
        ext_deg(c) as nat,
        |i: int|
            if i == 0 {
                1int
            } else {
                0int
            },
    )
}

/// Model-level multiplication: the polynomial convolution of the two
/// representatives, reduced modulo the modulus polynomial and truncated to
/// the canonical `k` coefficients.
pub open spec fn mulx(c: Seq<int>, x: Seq<int>, y: Seq<int>) -> Seq<int> {
    let bc = base_ctx(c);
    let red = prem_model::<RZp>(
        bc,
        crate::poly::conv_model::<RZp>(bc, lift(x), lift(y)),
        modpoly(c),
    );
    Seq::new(ext_deg(c) as nat, |i: int| red[i][0])
}

/// Canonical reduction of an arbitrary representative: the Euclidean
/// remainder modulo the modulus polynomial, truncated or zero-extended to
/// exactly `k` coefficients.
pub open spec fn reducex(c: Seq<int>, xm: Seq<int>) -> Seq<int> {
    let red = prem_model::<RZp>(base_ctx(c), lift(xm), modpoly(c));
    Seq::new(
        ext_deg(c) as nat,
        |i: int|
            if i < red.len() {
                red[i][0]
            } else {
                0int
            },
    )
}

/// Square-and-multiply at model level: the state left by the binary
/// exponentiation loop after consuming the bits of `e`.
pub open spec fn sqmx(c: Seq<int>, acc: Seq<int>, base: Seq<int>, e: nat) -> Seq<int>
    decreases e,
{
    if e == 0 {
        acc
    } else {
        sqmx(
            c,
            if e % 2 == 1 {
                mulx(c, acc, base)
            } else {
                acc
            },
            mulx(c, base, base),
            e / 2,
        )
    }
}

/// What the Fermat-style inversion computes: the element raised to
/// `order - 2` by square-and-multiply.
pub open spec fn invx(c: Seq<int>, x: Seq<int>) -> Seq<int> {
    sqmx(c, onex(c), x, (pow(c[0], ext_deg(c) as nat) - 2) as nat)
}

impl RFq {
    #[verifier::type_invariant]
    spec fn inv(&self) -> bool {
        &&& pwf::<RZp>(self.r@)
        &&& pwf::<RZp>(self.x@)
        &&& self.r@.len() >= 2
        &&& self.x@.len() == self.r@.len() - 1
        &&& pctx::<RZp>(self.x@) == pctx::<RZp>(self.r@)
        &&& models(self.r@)[self.r@.len() - 1] != <RZp as Field>::zero_model(pctx(self.r@))
        &&& self.x@.len() + self.r@.len() <= usize::MAX
    }
}

/// Everything the structural invariant yields about the models of a
/// well-formed extension element.
proof fn lemma_unpack(a: &RFq)
    requires
        a.inv(),
    ensures
        <RFq as Field>::ctx_wf(a.context_model()),
        base_ctx(a.context_model()) == pctx::<RZp>(a.x@),
        base_ctx(a.context_model()) == pctx::<RZp>(a.r@),
        modpoly(a.context_model()) == models(a.r@),
        ext_deg(a.context_model()) == a.x@.len() as int,
        lift(a.value_model()) == models(a.x@),
        <RFq as Field>::val_wf(a.context_model(), a.value_model()),
        a.context_model().len() == a.r@.len() + 1,
        deg_m::<RZp>(pctx(a.r@), models(a.r@)) == a.r@.len() - 1,
{
    let c = a.context_model();
    let p = pctx::<RZp>(a.r@)[0];
    let rm = flat(models(a.r@));
    assert(c =~= seq![p] + rm);
    assert(c.len() == a.r@.len() + 1);
    assert(c[0] == p);
    assert(forall|i: int|
        0 <= i < a.r@.len() ==> (#[trigger] models(a.r@)[i]) == a.r@[i].value_model());
    assert(forall|i: int| 1 <= i < c.len() ==> c[i] == models(a.r@)[i - 1][0]);
    assert(forall|i: int| 1 <= i < c.len() ==> in_field(p, #[trigger] c[i]));
    assert(base_ctx(c) =~= pctx::<RZp>(a.r@));
    assert(c.subrange(1, c.len() as int) =~= rm);
    assert(modpoly(c) =~~= models(a.r@));
    assert(lift(a.value_model()) =~~= models(a.x@));
    let last = a.r@.len() - 1;
    if c[c.len() - 1] == 0 {
        assert(models(a.r@)[last] =~= <RZp as Field>::zero_model(pctx(a.r@)));
    }
    assert(models(a.r@)[last] != <RZp as Field>::zero_model(pctx(a.r@)));
    lemma_deg_m_found::<RZp>(pctx(a.r@), models(a.r@), last);
    assert(a.value_model().len() == ext_deg(c));
    assert(forall|i: int|
        0 <= i < a.value_model().len() ==> in_field(c[0], #[trigger] a.value_model()[i]));
}

impl RFq {
    /// Builds the extension-field element represented by `x` in the field
    /// with the irreducible modulus polynomial `r`; the representative is
    /// reduced modulo `r` and stored with exactly `deg(r)` coefficients.
    /// The modulus is given trimmed: its stored leading coefficient, at its
    /// highest index, is not zero.
    pub fn new(x: Poly<RZp>, r: Poly<RZp>) -> (res: RFq)
        requires
            x@.len() >= 1,
            r@.len() >= 2,
            pwf::<RZp>(x@),
            pwf::<RZp>(r@),
            pctx::<RZp>(x@) == pctx::<RZp>(r@),
            models(r@)[r@.len() - 1] != <RZp as Field>::zero_model(pctx(r@)),
            x@.len() + r@.len() <= usize::MAX,
            2 * r@.len() <= usize::MAX,
        ensures
            res.context_model() == make_ctx(pctx::<RZp>(r@)[0], flat(models(r@))),
            res.value_model() == reducex(res.context_model(), flat(models(x@))),
            crate::field::fwf(res),
    {
        let ghost bc = pctx::<RZp>(r@);
        let ghost rm = models(r@);
        let ghost am = models(x@);
        proof {
            lemma_deg_m_found::<RZp>(bc, rm, r@.len() - 1);
            lemma_deg_m_bound::<RZp>(bc, am);
        }
        let w = match x.rem(&r) {
            Ok(w) => w,
            Err(e) => {
                proof {
                    assert(false);
                }
                Poly::empty()
            },
        };
        let k = r.maxdeg();
        let z = r.coeff(0).zero_of();
        let mut out: Vec<RZp> = Vec::new();
        let mut i: usize = 0;
        while i < k
            invariant
                i <= k,
                out@.len() == i,
                k as int == r@.len() - 1,
                w@.len() == x@.len(),
                z.context_model() == bc,
                z.value_model() == <RZp as Field>::zero_model(bc),
                bc == pctx::<RZp>(r@),
                <RZp as Field>::ctx_wf(bc),
                models(w@) == prem_model::<RZp>(bc, am, rm),
                forall|m: int|
                    0 <= m < w@.len() ==> (#[trigger] w@[m]).context_model() == bc
                        && <RZp as Field>::val_wf(bc, w@[m].value_model()),
                forall|m: int|
                    0 <= m < i as int ==> (#[trigger] out@[m]).context_model() == bc
                        && <RZp as Field>::val_wf(bc, out@[m].value_model()),
                forall|m: int|
                    0 <= m < i as int ==> (#[trigger] out@[m]).value_model() == (if m < w@.len() {
                        models(w@)[m]
                    } else {
                        <RZp as Field>::zero_model(bc)
                    }),
            decreases k - i,
        {
            if i < w.coefficients().len() {
                let cf = w.coeff(i);
                out.push(cf.dup());
            } else {
                out.push(z.dup());
            }
            i += 1;
        }
        let res = RFq { x: Poly::from_coeffs(out), r };
        proof {
            lemma_unpack(&res);
            let c = res.context_model();
            assert(c =~= make_ctx(bc[0], flat(rm)));
            let red = prem_model::<RZp>(base_ctx(c), lift(flat(am)), modpoly(c));
            assert(lift(flat(am)) =~~= am);
            assert(base_ctx(c) =~= bc);
            assert(modpoly(c) =~~= rm);
            assert(red == models(w@));
            assert(res.value_model() =~= reducex(c, flat(am)));
        }
        res
    }

    /// The canonical representative polynomial, with exactly `k` stored
    /// coefficients.
    pub fn representative(&self) -> (rp: &Poly<RZp>)
        ensures
            flat(models(rp@)) == self.value_model(),
            rp@.len() as int == ext_deg(self.context_model()),
            pwf::<RZp>(rp@),
    {
        proof {
            use_type_invariant(self);
            lemma_unpack(self);
            assert(flat(models(self.x@)) =~= self.value_model());
        }
        &self.x
    }

    /// The irreducible modulus polynomial of the field this element
    /// belongs to.
    pub fn modulus_poly(&self) -> (rp: &Poly<RZp>)
        ensures
            flat(models(rp@)) == self.context_model().subrange(
                1,
                self.context_model().len() as int,
            ),
            rp@.len() + 1 == self.context_model().len(),
            pwf::<RZp>(rp@),
    {
        proof {
            use_type_invariant(self);
            lemma_unpack(self);
            assert(flat(models(self.r@)) =~= self.context_model().subrange(
                1,
                self.context_model().len() as int,
            ));
        }
        &self.r
    }
}

impl Field for RFq {
    closed spec fn context_model(&self) -> Seq<int> {
        make_ctx(pctx::<RZp>(self.r@)[0], flat(models(self.r@)))
    }

    closed spec fn value_model(&self) -> Seq<int> {
        flat(models(self.x@))
    }

    open spec fn ctx_wf(c: Seq<int>) -> bool {
        &&& c.len() >= 3
        &&& 2 <= c[0] <= u64::MAX as int
        &&& forall|i: int| 1 <= i < c.len() ==> in_field(c[0], #[trigger] c[i])
        &&& c[c.len() - 1] != 0
    }

    open spec fn val_wf(c: Seq<int>, v: Seq<int>) -> bool {
        &&& v.len() == ext_deg(c)
        &&& forall|i: int| 0 <= i < v.len() ==> in_field(c[0], #[trigger] v[i])
    }

    open spec fn add_model(c: Seq<int>, x: Seq<int>, y: Seq<int>) -> Seq<int> {
        addx(c, x, y)
    }

    open spec fn neg_model(c: Seq<int>, x: Seq<int>) -> Seq<int> {
        negx(c, x)
    }

    open spec fn mul_model(c: Seq<int>, x: Seq<int>, y: Seq<int>) -> Seq<int> {
        mulx(c, x, y)
    }

    open spec fn inv_model(c: Seq<int>, x: Seq<int>) -> Seq<int> {
        invx(c, x)
    }

    open spec fn pow_model(c: Seq<int>, x: Seq<int>, e: nat) -> Seq<int> {
        sqmx(c, onex(c), x, e)
    }

    open spec fn zero_model(c: Seq<int>) -> Seq<int> {
        zerox(c)
    }

    open spec fn one_model(c: Seq<int>) -> Seq<int> {
        onex(c)
    }

    open spec fn char_model(c: Seq<int>) -> int {
        c[0]
    }

    open spec fn deg_model(c: Seq<int>) -> int {
        ext_deg(c)
    }

    open spec fn order_model(c: Seq<int>) -> int {
        pow(c[0], ext_deg(c) as nat)
    }

    fn add(&self, rhs: &Self) -> (r: Self) {
        proof {
            use_type_invariant(self);
            use_type_invariant(rhs);
            lemma_unpack(self);
            lemma_unpack(rhs);
            assert(pctx::<RZp>(rhs.x@) =~= pctx::<RZp>(self.x@));
        }
        let s = self.x.add(&rhs.x);
        let res = RFq { x: s, r: self.r.duplicate() };
        proof {
            assert(models(res.r@) =~~= models(self.r@));
            assert(pctx::<RZp>(res.r@) =~= pctx::<RZp>(self.r@));
            assert(res.context_model() =~= self.context_model());
            lemma_unpack(&res);
            assert(res.value_model() =~= addx(
                self.context_model(),
                self.value_model(),
                rhs.value_model(),
            ));
        }
        res
    }

    fn sub(&self, rhs: &Self) -> (r: Self) {
        let n = rhs.neg();
        self.add(&n)
    }

    fn neg(&self) -> (r: Self) {
        proof {
            use_type_invariant(self);
            lemma_unpack(self);
        }
        let s = self.x.neg();
        let res = RFq { x: s, r: self.r.duplicate() };
        proof {
            assert(models(res.r@) =~~= models(self.r@));
            assert(pctx::<RZp>(res.r@) =~= pctx::<RZp>(self.r@));
            assert(res.context_model() =~= self.context_model());
            lemma_unpack(&res);
            assert(res.value_model() =~= negx(self.context_model(), self.value_model()));
        }
        res
    }

    fn mul(&self, rhs: &Self) -> (r: Self) {
        proof {
            use_type_invariant(self);
            use_type_invariant(rhs);
            lemma_unpack(self);
            lemma_unpack(rhs);
            assert(pctx::<RZp>(rhs.x@) =~= pctx::<RZp>(self.x@));
        }
        let z = self.x.mul(&rhs.x);
        let ghost c = self.context_model();
        let ghost bc = base_ctx(c);
        proof {
            assert(models(z@) =~~= crate::poly::conv_model::<RZp>(
                bc,
                models(self.x@),
                models(rhs.x@),
            ));
            assert(lift(self.value_model()) =~~= models(self.x@));
            assert(lift(rhs.value_model()) =~~= models(rhs.x@));
            lemma_deg_m_found::<RZp>(bc, models(self.r@), self.r@.len() - 1);
        }
        let w = match z.rem(&self.r) {
            Ok(w) => w,
            Err(e) => {
                proof {
                    assert(false);
                }
                Poly::empty()
            },
        };
        let k = self.r.maxdeg();
        let t = w.truncated(k);
        let res = RFq { x: t, r: self.r.duplicate() };
        proof {
            assert(models(res.r@) =~~= models(self.r@));
            assert(pctx::<RZp>(res.r@) =~= pctx::<RZp>(self.r@));
            assert(res.context_model() =~= self.context_model());
            lemma_unpack(&res);
            let red = prem_model::<RZp>(
                bc,
                crate::poly::conv_model::<RZp>(bc, lift(self.value_model()), lift(rhs.value_model())),
                modpoly(c),
            );
            assert(red == models(w@));
            assert(res.value_model() =~= mulx(c, self.value_model(), rhs.value_model()));
        }
        res
    }

    fn pow(&self, e: u64) -> (r: Self) {
        proof {
            use_type_invariant(self);
        }
        let ghost c = self.context_model();
        let mut z = self.one_of();
        let mut t = self.dup();
        let mut rem: u64 = e;
        proof {
            use_type_invariant(&t);
        }
        while rem != 0
            invariant
                Self::ctx_wf(c),
                z.context_model() == c,
                t.context_model() == c,
                Self::val_wf(c, z.value_model()),
                Self::val_wf(c, t.value_model()),
                sqmx(c, z.value_model(), t.value_model(), rem as nat) == sqmx(
                    c,
                    onex(c),
                    self.value_model(),
                    e as nat,
                ),
            decreases rem,
        {
            if rem % 2 == 1 {
                z = z.mul(&t);
            }
            t = t.mul(&t);
            rem = rem / 2;
        }
        z
    }

    fn inverse(&self) -> (r: Result<Self, AlgebraError>) {
        proof {
            use_type_invariant(self);
            lemma_unpack(self);
        }
        if self.is_zero() {
            Err(AlgebraError::DivisionByZero)
        } else {
            let ghost c = self.context_model();
            proof {
                lemma_order_low(c);
            }
            let ord = self.order();
            let w = self.pow(ord - 2);
            Ok(w)
        }
    }

    fn div(&self, rhs: &Self) -> (r: Result<Self, AlgebraError>) {
        match rhs.inverse() {
            Ok(w) => Ok(self.mul(&w)),
            Err(e) => Err(e),
        }
    }

    fn zero_of(&self) -> (r: Self) {
        proof {
            use_type_invariant(self);
            lemma_unpack(self);
        }
        let ghost bc = pctx::<RZp>(self.r@);
        let z = self.r.coeff(0).zero_of();
        let k = self.r.maxdeg();
        let mut out: Vec<RZp> = Vec::new();
        let mut i: usize = 0;
        while i < k
            invariant
                i <= k,
                out@.len() == i,
                z.context_model() == bc,
                z.value_model() == <RZp as Field>::zero_model(bc),
                <RZp as Field>::ctx_wf(bc),
                forall|m: int|
                    0 <= m < i as int ==> (#[trigger] out@[m]).context_model() == bc
                        && out@[m].value_model() == <RZp as Field>::zero_model(bc),
            decreases k - i,
        {
            out.push(z.dup());
            i += 1;
        }
        let res = RFq { x: Poly::from_coeffs(out), r: self.r.duplicate() };
        proof {
            assert(models(res.r@) =~~= models(self.r@));
            assert(pctx::<RZp>(res.r@) =~= pctx::<RZp>(self.r@));
            assert(res.context_model() =~= self.context_model());
            lemma_unpack(&res);
            assert(res.value_model() =~= zerox(self.context_model()));
        }
        res
    }

    fn one_of(&self) -> (r: Self) {
        proof {
            use_type_invariant(self);
            lemma_unpack(self);
        }
        let ghost bc = pctx::<RZp>(self.r@);
        let z = self.r.coeff(0).zero_of();
        let one = self.r.coeff(0).one_of();
        let k = self.r.maxdeg();
        let mut out: Vec<RZp> = Vec::new();
        out.push(one);
        let mut i: usize = 1;
        while i < k
            invariant
                1 <= i <= k || (k == 0 && i == 1),
                out@.len() == i,
                z.context_model() == bc,
                z.value_model() == <RZp as Field>::zero_model(bc),
                out@[0].context_model() == bc,
                out@[0].value_model() == <RZp as Field>::one_model(bc),
                <RZp as Field>::ctx_wf(bc),
                forall|m: int|
                    1 <= m < i as int ==> (#[trigger] out@[m]).context_model() == bc
                        && out@[m].value_model() == <RZp as Field>::zero_model(bc),
            decreases k - i,
        {
            out.push(z.dup());
            i += 1;
        }
        let res = RFq { x: Poly::from_coeffs(out), r: self.r.duplicate() };
        proof {
            assert(models(res.r@) =~~= models(self.r@));
            assert(pctx::<RZp>(res.r@) =~= pctx::<RZp>(self.r@));
            assert(res.context_model() =~= self.context_model());
            lemma_unpack(&res);
            assert(res.value_model() =~= onex(self.context_model()));
        }
        res
    }

    fn dup(&self) -> (r: Self) {
        proof {
            use_type_invariant(self);
        }
        let res = RFq { x: self.x.duplicate(), r: self.r.duplicate() };
        proof {
            assert(models(res.r@) =~~= models(self.r@));
            assert(pctx::<RZp>(res.r@) =~= pctx::<RZp>(self.r@));
            assert(models(res.x@) =~~= models(self.x@));
            assert(res.context_model() =~= self.context_model());
            assert(res.value_model() =~= self.value_model());
        }
        res
    }

    fn equals(&self, rhs: &Self) -> (b: bool) {
        proof {
            use_type_invariant(self);
            use_type_invariant(rhs);
            lemma_unpack(self);
            lemma_unpack(rhs);
            assert(pctx::<RZp>(rhs.x@) =~= pctx::<RZp>(self.x@));
        }
        let b = self.x.equals(&rhs.x);
        proof {
            if models(self.x@) == models(rhs.x@) {
                assert(self.value_model() =~= rhs.value_model());
            }
            if self.value_model() == rhs.value_model() {
                assert(models(self.x@) =~~= models(rhs.x@));
            }
        }
        b
    }

    fn is_zero(&self) -> (b: bool) {
        proof {
            use_type_invariant(self);
            lemma_unpack(self);
        }
        let ghost c = self.context_model();
        let xs = self.x.coefficients();
        let mut i: usize = 0;
        while i < xs.len()
            invariant
                i <= xs.len(),
                xs@ == self.x@,
                pwf::<RZp>(self.x@),
                forall|m: int| 0 <= m < i as int ==> self.value_model()[m] == 0,
                self.value_model().len() == xs@.len(),
                self.value_model() == flat(models(self.x@)),
            decreases xs@.len() - i,
        {
            if !xs[i].is_zero() {
                proof {
                    let vm = self.x@[i as int].value_model();
                    if vm[0] == 0 {
                        assert(vm =~= <RZp as Field>::zero_model(
                            self.x@[i as int].context_model(),
                        ));
                    }
                    assert(self.value_model()[i as int] == vm[0]);
                    if self.value_model() == zerox(c) {
                        assert(zerox(c)[i as int] == 0);
                    }
                }
                return false;
            }
            proof {
                assert(models(self.x@)[i as int] == self.x@[i as int].value_model());
                assert(self.value_model()[i as int] == 0);
            }
            i += 1;
        }
        proof {
            assert(self.value_model() =~= zerox(c));
        }
        true
    }

    fn characteristic(&self) -> (r: u64) {
        proof {
            use_type_invariant(self);
            lemma_unpack(self);
        }
        self.r.coeff(0).modulus()
    }

    fn extension_degree(&self) -> (r: usize) {
        proof {
            use_type_invariant(self);
            lemma_unpack(self);
        }
        self.r.maxdeg()
    }

    fn order(&self) -> (r: u64) {
        proof {
            use_type_invariant(self);
            lemma_unpack(self);
        }
        let ghost c = self.context_model();
        let p = self.r.coeff(0).modulus();
        let k = self.r.maxdeg();
        let mut acc: u64 = 1;
        let mut j: usize = 0;
        proof {
            lemma_pow0(p as int);
        }
        while j < k
            invariant
                j <= k,
                p as int == c[0],
                p >= 2,
                k as int == ext_deg(c),
                acc as int == pow(p as int, j as nat),
                pow(p as int, k as nat) <= u64::MAX as int,
            decreases k - j,
        {
            proof {
                lemma_pow_increases(p as nat, (j + 1) as nat, k as nat);
                lemma_pow_adds(p as int, j as nat, 1);
                lemma_pow1(p as int);
                assert(pow(p as int, (j + 1) as nat) == pow(p as int, j as nat) * (p as int));
                lemma_pow_positive(p as int, j as nat);
            }
            acc = acc * p;
            j += 1;
        }
        acc
    }

    proof fn lemma_ctx_facts(c: Seq<int>) {
        lemma_order_low(c);
        lemma_pow1(c[0]);
    }

    proof fn lemma_add_comm(c: Seq<int>, x: Seq<int>, y: Seq<int>) {
        assert forall|i: int| 0 <= i < x.len() implies addx(c, x, y)[i] == addx(c, y, x)[i] by {
            lemma_add_z_comm(c[0], x[i], y[i]);
        }
        assert(addx(c, x, y) =~= addx(c, y, x));
    }

    proof fn lemma_add_assoc(c: Seq<int>, x: Seq<int>, y: Seq<int>, z: Seq<int>) {
        assert forall|i: int|
            0 <= i < x.len() implies addx(c, addx(c, x, y), z)[i] == addx(c, x, addx(c, y, z))[i] by {
            lemma_add_z_assoc(c[0], x[i], y[i], z[i]);
        }
        assert(addx(c, addx(c, x, y), z) =~= addx(c, x, addx(c, y, z)));
    }

    proof fn lemma_add_zero(c: Seq<int>, x: Seq<int>) {
        assert forall|i: int| 0 <= i < x.len() implies addx(c, x, zerox(c))[i] == x[i] by {
            lemma_add_z_zero(c[0], x[i]);
        }
        assert(addx(c, x, zerox(c)) =~= x);
    }

    proof fn lemma_add_neg(c: Seq<int>, x: Seq<int>) {
        assert forall|i: int| 0 <= i < x.len() implies addx(c, x, negx(c, x))[i] == 0 by {
            lemma_add_z_neg(c[0], x[i]);
        }
        assert(addx(c, x, negx(c, x)) =~= zerox(c));
    }

    proof fn lemma_mul_comm(c: Seq<int>, x: Seq<int>, y: Seq<int>) {
        let bc = base_ctx(c);
        lemma_lift_wf(c, x);
        lemma_lift_wf(c, y);
        assert forall|m: int|
            0 <= m < lift(x).len() + lift(y).len() - 1 implies conv_entry::<RZp>(
            bc,
            lift(x),
            lift(y),
            m,
        ) == conv_entry::<RZp>(bc, lift(y), lift(x), m) by {
            lemma_conv_entry_comm::<RZp>(bc, lift(x), lift(y), m);
        }
        assert(crate::poly::conv_model::<RZp>(bc, lift(x), lift(y)) =~= crate::poly::conv_model::<
            RZp,
        >(bc, lift(y), lift(x)));
        assert(mulx(c, x, y) =~= mulx(c, y, x));
    }

    proof fn lemma_mul_one(c: Seq<int>, x: Seq<int>) {
        let bc = base_ctx(c);
        let k = ext_deg(c);
        lemma_lift_wf(c, x);
        lemma_lift_wf(c, onex(c));
        lemma_modpoly_wf(c);
        assert(lift(onex(c))[0] =~= <RZp as Field>::one_model(bc));
        assert(forall|j: int|
            1 <= j < k ==> (#[trigger] lift(onex(c))[j]) =~= <RZp as Field>::zero_model(bc));
        let prod = crate::poly::conv_model::<RZp>(bc, lift(x), lift(onex(c)));
        assert forall|m: int| 0 <= m < prod.len() implies #[trigger] prod[m] == (if m < k {
            lift(x)[m]
        } else {
            <RZp as Field>::zero_model(bc)
        }) by {
            lemma_conv_impulse::<RZp>(bc, lift(x), lift(onex(c)), m);
        }
        lemma_reduce_short(c, prod);
        assert(mulx(c, x, onex(c)) =~= x);
    }

    proof fn lemma_mul_zero(c: Seq<int>, x: Seq<int>) {
        let bc = base_ctx(c);
        let k = ext_deg(c);
        lemma_lift_wf(c, x);
        lemma_modpoly_wf(c);
        assert(forall|j: int|
            0 <= j < k ==> (#[trigger] lift(zerox(c))[j]) =~= <RZp as Field>::zero_model(bc));
        let prod = crate::poly::conv_model::<RZp>(bc, lift(x), lift(zerox(c)));
        assert forall|m: int|
            0 <= m < prod.len() implies #[trigger] prod[m] == <RZp as Field>::zero_model(bc) by {
            lemma_conv_zero_rhs::<RZp>(bc, lift(x), lift(zerox(c)), m);
        }
        lemma_reduce_short(c, prod);
        assert(mulx(c, x, zerox(c)) =~= zerox(c));
    }

    proof fn lemma_add_wf(c: Seq<int>, x: Seq<int>, y: Seq<int>) {
        assert forall|i: int| 0 <= i < addx(c, x, y).len() implies in_field(
            c[0],
            #[trigger] addx(c, x, y)[i],
        ) by {
            lemma_add_z_wf(c[0], x[i], y[i]);
        }
    }

    proof fn lemma_neg_wf(c: Seq<int>, x: Seq<int>) {
        assert forall|i: int| 0 <= i < negx(c, x).len() implies in_field(
            c[0],
            #[trigger] negx(c, x)[i],
        ) by {
            lemma_neg_z_wf(c[0], x[i]);
        }
    }

    proof fn lemma_mul_wf(c: Seq<int>, x: Seq<int>, y: Seq<int>) {
        lemma_mulx_wf(c, x, y);
    }

    proof fn lemma_zero_wf(c: Seq<int>) {
    }

    proof fn lemma_one_wf(c: Seq<int>) {
    }

    proof fn lemma_inv_wf(c: Seq<int>, x: Seq<int>) {
        lemma_sqmx_wf(c, onex(c), x, (pow(c[0], ext_deg(c) as nat) - 2) as nat);
    }
}

/// The order of a well-formed extension field is at least its
/// characteristic.
proof fn lemma_order_low(c: Seq<int>)
    requires
        <RFq as Field>::ctx_wf(c),
    ensures
        pow(c[0], ext_deg(c) as nat) >= c[0],
{
    lemma_pow1(c[0]);
    lemma_pow_increases(c[0] as nat, 1, ext_deg(c) as nat);
}

/// Lifted residues of a valid value are valid prime-field element models.
proof fn lemma_lift_wf(c: Seq<int>, x: Seq<int>)
    requires
        <RFq as Field>::ctx_wf(c),
        <RFq as Field>::val_wf(c, x),
    ensures
        forall|i: int|
            0 <= i < lift(x).len() ==> <RZp as Field>::val_wf(base_ctx(c), #[trigger] lift(x)[i]),
        lift(x).len() == ext_deg(c),
{
}

/// The recorded modulus polynomial has valid coefficients, degree `k`, and
/// a leading coefficient other than zero.
proof fn lemma_modpoly_wf(c: Seq<int>)
    requires
        <RFq as Field>::ctx_wf(c),
    ensures
        forall|j: int|
            0 <= j < modpoly(c).len() ==> <RZp as Field>::val_wf(
                base_ctx(c),
                #[trigger] modpoly(c)[j],
            ),
        modpoly(c).len() == ext_deg(c) + 1,
        deg_m::<RZp>(base_ctx(c), modpoly(c)) == ext_deg(c),
        modpoly(c)[ext_deg(c)] != <RZp as Field>::zero_model(base_ctx(c)),
{
    let bc = base_ctx(c);
    let k = ext_deg(c);
    if modpoly(c)[k] == <RZp as Field>::zero_model(bc) {
        assert(modpoly(c)[k][0] == c[c.len() - 1]);
        assert(false);
    }
    lemma_deg_m_found::<RZp>(bc, modpoly(c), k);
}

/// Reducing a representative whose degree already lies below `k` changes
/// nothing but the storage length: its first `k` residues come back.
proof fn lemma_reduce_short(c: Seq<int>, v: Seq<Seq<int>>)
    requires
        <RFq as Field>::ctx_wf(c),
        v.len() >= 1,
        forall|m: int|
            ext_deg(c) <= m < v.len() ==> (#[trigger] v[m]) == <RZp as Field>::zero_model(
                base_ctx(c),
            ),
    ensures
        prem_model::<RZp>(base_ctx(c), v, modpoly(c)) == v,
{
    let bc = base_ctx(c);
    let k = ext_deg(c);
    lemma_modpoly_wf(c);
    if v.len() <= k {
        lemma_deg_m_bound::<RZp>(bc, v);
    } else {
        lemma_deg_m_below::<RZp>(bc, v, k);
    }
    assert(deg_m::<RZp>(bc, v) < k);
    assert(prem_model::<RZp>(bc, v, modpoly(c)) == v);
}

/// The product of two valid values is a valid value.
proof fn lemma_mulx_wf(c: Seq<int>, x: Seq<int>, y: Seq<int>)
    requires
        <RFq as Field>::ctx_wf(c),
        <RFq as Field>::val_wf(c, x),
        <RFq as Field>::val_wf(c, y),
    ensures
        <RFq as Field>::val_wf(c, mulx(c, x, y)),
{
    let bc = base_ctx(c);
    let k = ext_deg(c);
    lemma_lift_wf(c, x);
    lemma_lift_wf(c, y);
    lemma_modpoly_wf(c);
    let prod = crate::poly::conv_model::<RZp>(bc, lift(x), lift(y));
    assert forall|m: int| 0 <= m < prod.len() implies <RZp as Field>::val_wf(
        bc,
        #[trigger] prod[m],
    ) by {
        lemma_conv_entry_wf::<RZp>(bc, lift(x), lift(y), m);
    }
    lemma_deg_m_bound::<RZp>(bc, prod);
    lemma_prem_from_wf::<RZp>(
        bc,
        prod,
        modpoly(c),
        k,
        k,
        deg_m::<RZp>(bc, prod),
    );
}

/// Law: extension-field closure.  The product of two elements whose
/// representatives have degree below `k` again has a representative of
/// exactly `k` stored coefficients, hence of degree below `k`.
pub proof fn lemma_mul_closure(c: Seq<int>, x: Seq<int>, y: Seq<int>)
    requires
        <RFq as Field>::ctx_wf(c),
        <RFq as Field>::val_wf(c, x),
        <RFq as Field>::val_wf(c, y),
    ensures
        mulx(c, x, y).len() == ext_deg(c),
        deg_m::<RZp>(base_ctx(c), lift(mulx(c, x, y))) < ext_deg(c),
{
    lemma_deg_m_bound::<RZp>(base_ctx(c), lift(mulx(c, x, y)));
}

/// For a prime characteristic, one long-division step over the prime
/// field really clears the entry it targets: the quotient factor times
/// the leading coefficient gives that entry back exactly, because the
/// Fermat inverse of a non-zero residue is a true inverse.
proof fn lemma_prem_step_clears(
    bc: Seq<int>,
    v: Seq<Seq<int>>,
    b: Seq<Seq<int>>,
    db: int,
    i: int,
)
    requires
        <RZp as Field>::ctx_wf(bc),
        crate::fermat::is_prime(bc[0]),
        forall|m: int| 0 <= m < v.len() ==> <RZp as Field>::val_wf(bc, #[trigger] v[m]),
        forall|j: int| 0 <= j < b.len() ==> <RZp as Field>::val_wf(bc, #[trigger] b[j]),
        0 <= db < b.len(),
        0 <= i < v.len(),
        b[db] != <RZp as Field>::zero_model(bc),
    ensures
        crate::poly::prem_step::<RZp>(bc, v, b, db, i)[i] == <RZp as Field>::zero_model(bc),
{
    let p = bc[0];
    let lead = b[db][0];
    let vi = v[i][0];
    if lead == 0 {
        assert(b[db] =~= <RZp as Field>::zero_model(bc));
    }
    let t0 = mul_z(p, vi, crate::zmod::inv_z(p, lead));
    crate::fermat::lemma_inv_z_correct(p, lead);
    crate::zmod::lemma_mul_z_assoc(p, vi, crate::zmod::inv_z(p, lead), lead);
    crate::zmod::lemma_mul_z_comm(p, crate::zmod::inv_z(p, lead), lead);
    crate::zmod::lemma_mul_z_one(p, vi);
    assert(mul_z(p, t0, lead) == vi);
    lemma_add_z_neg(p, vi);
    let step = crate::poly::prem_step::<RZp>(bc, v, b, db, i);
    assert(step[i] == <RZp as Field>::add_model(
        bc,
        v[i],
        <RZp as Field>::neg_model(bc, <RZp as Field>::mul_model(bc, <RZp as Field>::mul_model(
            bc,
            v[i],
            <RZp as Field>::inv_model(bc, b[db]),
        ), b[db - (i - i)])),
    ));
    assert(step[i] =~= <RZp as Field>::zero_model(bc));
}

/// For a prime characteristic, the long-division state ends with zeros at
/// and above the divisor's degree, provided everything above the current
/// index is already zero.
proof fn lemma_prem_from_clears(
    bc: Seq<int>,
    v: Seq<Seq<int>>,
    b: Seq<Seq<int>>,
    db: int,
    i: int,
)
    requires
        <RZp as Field>::ctx_wf(bc),
        crate::fermat::is_prime(bc[0]),
        forall|m: int| 0 <= m < v.len() ==> <RZp as Field>::val_wf(bc, #[trigger] v[m]),
        forall|j: int| 0 <= j < b.len() ==> <RZp as Field>::val_wf(bc, #[trigger] b[j]),
        0 <= db < b.len(),
        db - 1 <= i < v.len(),
        b[db] != <RZp as Field>::zero_model(bc),
        forall|m: int| i < m < v.len() ==> #[trigger] v[m] == <RZp as Field>::zero_model(bc),
    ensures
        forall|m: int|
            db <= m < v.len() ==> #[trigger] crate::poly::prem_from::<RZp>(bc, v, b, db, db, i)[m]
                == <RZp as Field>::zero_model(bc),
    decreases i + 1 - db,
{
    if i < db {
        assert(crate::poly::prem_from::<RZp>(bc, v, b, db, db, i) == v);
    } else {
        let w = crate::poly::prem_step::<RZp>(bc, v, b, db, i);
        lemma_prem_step_clears(bc, v, b, db, i);
        crate::poly::lemma_prem_step_wf::<RZp>(bc, v, b, db, i);
        assert(forall|m: int| i - 1 < m < w.len() ==> #[trigger] w[m] == <RZp as Field>::zero_model(
            bc,
        ));
        lemma_prem_from_clears(bc, w, b, db, i - 1);
        assert(crate::poly::prem_from::<RZp>(bc, v, b, db, db, i) == crate::poly::prem_from::<RZp>(
            bc,
            w,
            b,
            db,
            db,
            i - 1,
        ));
    }
}

/// Law: extension-field closure in substance.  Over a prime
/// characteristic, the remainder of the product of two reduced
/// representatives has every coefficient at degree `k` or above equal to
/// zero, so the truncation to the `k` stored coefficients drops nothing:
/// the product genuinely has representative degree below `k`.
pub proof fn lemma_mul_exact_reduction(c: Seq<int>, x: Seq<int>, y: Seq<int>)
    requires
        <RFq as Field>::ctx_wf(c),
        <RFq as Field>::val_wf(c, x),
        <RFq as Field>::val_wf(c, y),
        crate::fermat::is_prime(c[0]),
    ensures
        ({
            let bc = base_ctx(c);
            let red = prem_model::<RZp>(
                bc,
                crate::poly::conv_model::<RZp>(bc, lift(x), lift(y)),
                modpoly(c),
            );
            forall|m: int|
                ext_deg(c) <= m < red.len() ==> #[trigger] red[m] == <RZp as Field>::zero_model(bc)
        }),
{
    let bc = base_ctx(c);
    let k = ext_deg(c);
    lemma_lift_wf(c, x);
    lemma_lift_wf(c, y);
    lemma_modpoly_wf(c);
    let prod = crate::poly::conv_model::<RZp>(bc, lift(x), lift(y));
    assert forall|m: int| 0 <= m < prod.len() implies <RZp as Field>::val_wf(
        bc,
        #[trigger] prod[m],
    ) by {
        lemma_conv_entry_wf::<RZp>(bc, lift(x), lift(y), m);
    }
    let da = deg_m::<RZp>(bc, prod);
    lemma_deg_m_bound::<RZp>(bc, prod);
    assert forall|m: int| da < m < prod.len() implies #[trigger] prod[m]
        == <RZp as Field>::zero_model(bc) by {
        crate::poly::lemma_deg_m_above::<RZp>(bc, prod, m);
    }
    assert(deg_m::<RZp>(bc, modpoly(c)) == k);
    assert(prem_model::<RZp>(bc, prod, modpoly(c)) == crate::poly::prem_from::<RZp>(
        bc,
        prod,
        modpoly(c),
        k,
        k,
        da,
    ));
    lemma_prem_from_wf::<RZp>(bc, prod, modpoly(c), k, k, da);
    if da >= k - 1 {
        lemma_prem_from_clears(bc, prod, modpoly(c), k, da);
    } else {
        assert(prem_model::<RZp>(bc, prod, modpoly(c)) == prod);
        assert(forall|m: int|
            k <= m < prod.len() ==> #[trigger] prod[m] == <RZp as Field>::zero_model(bc));
    }
}

/// The square-and-multiply state over valid values stays valid.
proof fn lemma_sqmx_wf(c: Seq<int>, acc: Seq<int>, base: Seq<int>, e: nat)
    requires
        <RFq as Field>::ctx_wf(c),
        <RFq as Field>::val_wf(c, acc),
        <RFq as Field>::val_wf(c, base),
    ensures
        <RFq as Field>::val_wf(c, sqmx(c, acc, base, e)),
    decreases e,
{
    if e != 0 {
        lemma_mulx_wf(c, acc, base);
        lemma_mulx_wf(c, base, base);
        let acc2 = if e % 2 == 1 {
            mulx(c, acc, base)
        } else {
            acc
        };
        lemma_sqmx_wf(c, acc2, mulx(c, base, base), e / 2);
    }
}

} // verus!
