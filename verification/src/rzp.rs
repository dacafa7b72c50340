//! The prime field: residues modulo a fixed prime `p`.
//!
//! An element carries its residue and its modulus; the modulus is the
//! explicit, immutable field context, so elements of differently-moduled
//! fields can coexist and every operation checks compatibility locally.
//! The caller guarantees that the modulus is prime; a composite modulus
//! yields mathematically meaningless but well-defined results.

use crate::errors::AlgebraError;
use crate::field::Field;
use crate::zmod::{
    add_z, in_field, inv_z, lemma_add_z_assoc, lemma_add_z_comm, lemma_add_z_neg,
    lemma_add_z_wf, lemma_add_z_zero, lemma_mul_z_assoc, lemma_mul_z_comm, lemma_mul_z_distrib,
    lemma_mul_z_one, lemma_mul_z_wf, lemma_mul_z_zero, lemma_neg_z_wf, lemma_sqm_z_wf, mul_z,
    neg_z, sqm_z,
};
use vstd::arithmetic::div_mod::{
    lemma_mod_pos_bound, lemma_mod_sub_multiples_vanish, lemma_small_mod,
};
use vstd::arithmetic::mul::lemma_mul_upper_bound;
use vstd::arithmetic::power::lemma_pow1;
use vstd::prelude::*;

verus! {

/// One element of the prime field of integers modulo `p`: a canonical
/// residue in `[0, p)` together with its modulus.
#[derive(Clone, Copy, PartialEq, Eq, Structural, Debug)]
pub struct RZp {
    x: u64,
    p: u64,
}

impl RZp {
    /// Builds the element of the field modulo `p` whose value is the residue
    /// class of `x`; the input is reduced, so the element is canonical.
    pub fn new(x: u64, p: u64) -> (r: RZp)
        requires
            p >= 2,
        ensures
            r.context_model() == seq![p as int],
            r.value_model() == seq![(x as int) % (p as int)],
            crate::field::fwf(r),
    {
        proof {
            lemma_mod_pos_bound(x as int, p as int);
        }
        RZp { x: x % p, p }
    }

    /// The canonical residue of this element.
    pub fn val(&self) -> (r: u64)
        ensures
            r as int == self.value_model()[0],
    {
        self.x
    }

    /// The modulus of the field this element belongs to.
    pub fn modulus(&self) -> (r: u64)
        ensures
            r as int == self.context_model()[0],
    {
        self.p
    }
}

impl Field for RZp {
    closed spec fn context_model(&self) -> Seq<int> {
        seq![self.p as int]
    }

    closed spec fn value_model(&self) -> Seq<int> {
        seq![self.x as int]
    }

    open spec fn ctx_wf(c: Seq<int>) -> bool {
        c.len() == 1 && 2 <= c[0] <= u64::MAX as int
    }

    open spec fn val_wf(c: Seq<int>, v: Seq<int>) -> bool {
        v.len() == 1 && in_field(c[0], v[0])
    }

    open spec fn add_model(c: Seq<int>, x: Seq<int>, y: Seq<int>) -> Seq<int> {
        seq![add_z(c[0], x[0], y[0])]
    }

    open spec fn neg_model(c: Seq<int>, x: Seq<int>) -> Seq<int> {
        seq![neg_z(c[0], x[0])]
    }

    open spec fn mul_model(c: Seq<int>, x: Seq<int>, y: Seq<int>) -> Seq<int> {
        seq![mul_z(c[0], x[0], y[0])]
    }

    open spec fn inv_model(c: Seq<int>, x: Seq<int>) -> Seq<int> {
        seq![inv_z(c[0], x[0])]
    }

    open spec fn pow_model(c: Seq<int>, x: Seq<int>, e: nat) -> Seq<int> {
        seq![sqm_z(c[0], 1, x[0], e)]
    }

    open spec fn zero_model(c: Seq<int>) -> Seq<int> {
        seq![0int]
    }

    open spec fn one_model(c: Seq<int>) -> Seq<int> {
        seq![1int]
    }

    open spec fn char_model(c: Seq<int>) -> int {
        c[0]
    }

    open spec fn deg_model(c: Seq<int>) -> int {
        1
    }

    open spec fn order_model(c: Seq<int>) -> int {
        c[0]
    }

    fn add(&self, rhs: &Self) -> (r: Self) {
        let p: u64 = self.p;
        let s: u64 = if rhs.x == 0 {
            self.x
        } else if self.x >= p - rhs.x {
            self.x - (p - rhs.x)
        } else {
            self.x + rhs.x
        };
        proof {
            let pi = p as int;
            let a = self.x as int;
            let b = rhs.x as int;
            if b == 0 {
                lemma_small_mod(a as nat, pi as nat);
            } else if a >= pi - b {
                lemma_mod_sub_multiples_vanish(a + b, pi);
                lemma_small_mod((a + b - pi) as nat, pi as nat);
            } else {
                lemma_small_mod((a + b) as nat, pi as nat);
            }
        }
        RZp { x: s, p }
    }

    fn sub(&self, rhs: &Self) -> (r: Self) {
        let n = rhs.neg();
        self.add(&n)
    }

    fn neg(&self) -> (r: Self) {
        let p: u64 = self.p;
        let s: u64 = if self.x == 0 {
            0
        } else {
            p - self.x
        };
        RZp { x: s, p }
    }

    fn mul(&self, rhs: &Self) -> (r: Self) {
        proof {
            lemma_mul_upper_bound(self.x as int, u64::MAX as int, rhs.x as int, u64::MAX as int);
        }
        let prod: u128 = (self.x as u128) * (rhs.x as u128);
        let m: u128 = prod % (self.p as u128);
        proof {
            lemma_mod_pos_bound((self.x as int) * (rhs.x as int), self.p as int);
        }
        RZp { x: m as u64, p: self.p }
    }

    fn pow(&self, e: u64) -> (r: Self) {
        let ghost c = self.context_model();
        let mut z = self.one_of();
        let mut t = *self;
        let mut rem: u64 = e;
        while rem != 0
            invariant
                Self::ctx_wf(c),
                z.context_model() == c,
                t.context_model() == c,
                Self::val_wf(c, z.value_model()),
                Self::val_wf(c, t.value_model()),
                sqm_z(c[0], z.value_model()[0], t.value_model()[0], rem as nat) == sqm_z(
                    c[0],
                    1,
                    self.value_model()[0],
                    e as nat,
                ),
            decreases rem,
        {
            if rem % 2 == 1 {
                z = z.mul(&t);
            }
            t = t.mul(&t);
            rem = rem / 2;
        }
        proof {
            assert(z.value_model() =~= Self::pow_model(c, self.value_model(), e as nat));
        }
        z
    }

    fn inverse(&self) -> (r: Result<Self, AlgebraError>) {
        if self.x == 0 {
            Err(AlgebraError::DivisionByZero)
        } else {
            let w = self.pow(self.p - 2);
            proof {
                let c = self.context_model();
                assert(w.value_model() =~= Self::inv_model(c, self.value_model()));
            }
            Ok(w)
        }
    }

    fn div(&self, rhs: &Self) -> (r: Result<Self, AlgebraError>) {
        match rhs.inverse() {
            Ok(w) => Ok(self.mul(&w)),
            Err(e) => Err(e),
        }
    }

    fn zero_of(&self) -> (r: Self) {
        RZp { x: 0, p: self.p }
    }

    fn one_of(&self) -> (r: Self) {
        RZp { x: 1, p: self.p }
    }

    fn dup(&self) -> (r: Self) {
        *self
    }

    fn equals(&self, rhs: &Self) -> (b: bool) {
        self.x == rhs.x
    }

    fn is_zero(&self) -> (b: bool) {
        self.x == 0
    }

    fn characteristic(&self) -> (r: u64) {
        self.p
    }

    fn extension_degree(&self) -> (r: usize) {
        1
    }

    fn order(&self) -> (r: u64) {
        self.p
    }

    proof fn lemma_ctx_facts(c: Seq<int>) {
        lemma_pow1(c[0]);
    }

    proof fn lemma_add_comm(c: Seq<int>, x: Seq<int>, y: Seq<int>) {
        lemma_add_z_comm(c[0], x[0], y[0]);
    }

    proof fn lemma_add_assoc(c: Seq<int>, x: Seq<int>, y: Seq<int>, z: Seq<int>) {
        lemma_add_z_assoc(c[0], x[0], y[0], z[0]);
    }

    proof fn lemma_add_zero(c: Seq<int>, x: Seq<int>) {
        lemma_add_z_zero(c[0], x[0]);
        assert(Self::add_model(c, x, Self::zero_model(c)) =~= x);
    }

    proof fn lemma_add_neg(c: Seq<int>, x: Seq<int>) {
        lemma_add_z_neg(c[0], x[0]);
    }

    proof fn lemma_mul_comm(c: Seq<int>, x: Seq<int>, y: Seq<int>) {
        lemma_mul_z_comm(c[0], x[0], y[0]);
    }

    proof fn lemma_mul_one(c: Seq<int>, x: Seq<int>) {
        lemma_mul_z_one(c[0], x[0]);
        assert(Self::mul_model(c, x, Self::one_model(c)) =~= x);
    }

    proof fn lemma_mul_zero(c: Seq<int>, x: Seq<int>) {
        lemma_mul_z_zero(c[0], x[0]);
    }

    proof fn lemma_add_wf(c: Seq<int>, x: Seq<int>, y: Seq<int>) {
        lemma_add_z_wf(c[0], x[0], y[0]);
    }

    proof fn lemma_neg_wf(c: Seq<int>, x: Seq<int>) {
        lemma_neg_z_wf(c[0], x[0]);
    }

    proof fn lemma_mul_wf(c: Seq<int>, x: Seq<int>, y: Seq<int>) {
        lemma_mul_z_wf(c[0], x[0], y[0]);
    }

    proof fn lemma_zero_wf(c: Seq<int>) {
    }

    proof fn lemma_one_wf(c: Seq<int>) {
    }

    proof fn lemma_inv_wf(c: Seq<int>, x: Seq<int>) {
        lemma_sqm_z_wf(c[0], 1, x[0], (c[0] - 2) as nat);
    }
}

/// The prime field satisfies the two ring laws that the field trait does
/// not oblige: associativity of multiplication, and distribution of
/// multiplication over addition.  Together with the trait obligations
/// this completes the field axioms, but for the inverse law below.
pub proof fn lemma_ring_laws(c: Seq<int>)
    requires
        <RZp as Field>::ctx_wf(c),
    ensures
        crate::field::ring_mul_laws::<RZp>(c),
{
    assert forall|x: Seq<int>, y: Seq<int>, z: Seq<int>|
        <RZp as Field>::val_wf(c, x) && <RZp as Field>::val_wf(c, y) && <RZp as Field>::val_wf(
            c,
            z,
        ) implies #[trigger] <RZp as Field>::mul_model(c, <RZp as Field>::mul_model(c, x, y), z)
        == <RZp as Field>::mul_model(c, x, <RZp as Field>::mul_model(c, y, z)) by {
        lemma_mul_z_assoc(c[0], x[0], y[0], z[0]);
        assert(<RZp as Field>::mul_model(c, <RZp as Field>::mul_model(c, x, y), z)
            =~= <RZp as Field>::mul_model(c, x, <RZp as Field>::mul_model(c, y, z)));
    }
    assert forall|x: Seq<int>, y: Seq<int>, z: Seq<int>|
        <RZp as Field>::val_wf(c, x) && <RZp as Field>::val_wf(c, y) && <RZp as Field>::val_wf(
            c,
            z,
        ) implies #[trigger] <RZp as Field>::mul_model(c, x, <RZp as Field>::add_model(c, y, z))
        == <RZp as Field>::add_model(
        c,
        <RZp as Field>::mul_model(c, x, y),
        <RZp as Field>::mul_model(c, x, z),
    ) by {
        lemma_mul_z_distrib(c[0], x[0], y[0], z[0]);
        assert(<RZp as Field>::mul_model(c, x, <RZp as Field>::add_model(c, y, z))
            =~= <RZp as Field>::add_model(
            c,
            <RZp as Field>::mul_model(c, x, y),
            <RZp as Field>::mul_model(c, x, z),
        ));
    }
}

/// Law: for a prime modulus, every element other than the additive
/// identity times its computed inverse is the multiplicative identity.
/// The computed inverse is the Fermat exponentiation `x^(p-2)`, so this is
/// Fermat's little theorem carried onto the element models.
pub proof fn lemma_inverse_law(c: Seq<int>, x: Seq<int>)
    requires
        <RZp as Field>::ctx_wf(c),
        <RZp as Field>::val_wf(c, x),
        crate::fermat::is_prime(c[0]),
        x != <RZp as Field>::zero_model(c),
    ensures
        <RZp as Field>::mul_model(c, x, <RZp as Field>::inv_model(c, x)) == <RZp as Field>::one_model(c),
{
    if x[0] == 0 {
        assert(x =~= <RZp as Field>::zero_model(c));
    }
    crate::fermat::lemma_inv_z_correct(c[0], x[0]);
    assert(<RZp as Field>::mul_model(c, x, <RZp as Field>::inv_model(c, x)) =~= <RZp as Field>::one_model(c));
}

/// Law: exponentiation consistency for the prime field.  Binary
/// (square-and-multiply) exponentiation, as the contract of `pow` records
/// it, equals `e`-fold repeated multiplication, and raising to the zeroth
/// power gives the multiplicative identity.
pub proof fn lemma_pow_is_repeated_mul(c: Seq<int>, x: Seq<int>, e: nat)
    requires
        <RZp as Field>::ctx_wf(c),
        <RZp as Field>::val_wf(c, x),
    ensures
        <RZp as Field>::pow_model(c, x, e) == seq![crate::zmod::pow_z(c[0], x[0], e)],
        <RZp as Field>::pow_model(c, x, 0) == <RZp as Field>::one_model(c),
{
    crate::zmod::lemma_sqm_z_pow(c[0], x[0], e);
    crate::zmod::lemma_sqm_z_pow(c[0], x[0], 0);
    assert(<RZp as Field>::pow_model(c, x, 0) =~= <RZp as Field>::one_model(c));
}

} // verus!
