//! The field capability set.
//!
//! A [`Field`] value is one element of some finite field together with the
//! immutable context of that field (for a prime field, the modulus; for an
//! extension field, the characteristic and the irreducible modulus
//! polynomial).  Contracts speak about two mathematical models: the *context
//! model* and the *value model*, both sequences of integers, and about the
//! spec-level operations on those models that each implementation fixes.
//! The proof obligations at the end of the trait are the laws every
//! implementation must establish; generic containers rely on them.

use crate::errors::AlgebraError;
use vstd::arithmetic::power::pow;
use vstd::prelude::*;

verus! {

pub trait Field: Sized {
    /// Mathematical model of the field context this element belongs to.
    spec fn context_model(&self) -> Seq<int>;

    /// Mathematical model of the element itself.
    spec fn value_model(&self) -> Seq<int>;

    /// Well-formedness of a context model.
    spec fn ctx_wf(c: Seq<int>) -> bool;

    /// Validity of a value model within the context `c`.
    spec fn val_wf(c: Seq<int>, v: Seq<int>) -> bool;

    /// Model-level addition.
    spec fn add_model(c: Seq<int>, x: Seq<int>, y: Seq<int>) -> Seq<int>;

    /// Model-level additive inverse.
    spec fn neg_model(c: Seq<int>, x: Seq<int>) -> Seq<int>;

    /// Model-level multiplication.
    spec fn mul_model(c: Seq<int>, x: Seq<int>, y: Seq<int>) -> Seq<int>;

    /// Model-level multiplicative inverse, as the implementation computes it
    /// (Fermat exponentiation by `order - 2`).
    spec fn inv_model(c: Seq<int>, x: Seq<int>) -> Seq<int>;

    /// Model-level exponentiation: what the square-and-multiply loop leaves
    /// after consuming the bits of `e`, starting from the multiplicative
    /// identity.
    spec fn pow_model(c: Seq<int>, x: Seq<int>, e: nat) -> Seq<int>;

    /// Model of the additive identity of the field with context `c`.
    spec fn zero_model(c: Seq<int>) -> Seq<int>;

    /// Model of the multiplicative identity of the field with context `c`.
    spec fn one_model(c: Seq<int>) -> Seq<int>;

    /// The characteristic: the prime underlying the field.
    spec fn char_model(c: Seq<int>) -> int;

    /// The extension degree over the prime subfield; 1 for a prime field.
    spec fn deg_model(c: Seq<int>) -> int;

    /// The element count of the field: `char_model ^ deg_model`.
    spec fn order_model(c: Seq<int>) -> int;

    /// Sum within the field.
    fn add(&self, rhs: &Self) -> (r: Self)
        requires
            Self::ctx_wf(self.context_model()),
            Self::val_wf(self.context_model(), self.value_model()),
            Self::val_wf(self.context_model(), rhs.value_model()),
            rhs.context_model() == self.context_model(),
        ensures
            r.context_model() == self.context_model(),
            r.value_model() == Self::add_model(
                self.context_model(),
                self.value_model(),
                rhs.value_model(),
            ),
            Self::val_wf(self.context_model(), r.value_model()),
    ;

    /// Difference within the field: the sum with the additive inverse.
    fn sub(&self, rhs: &Self) -> (r: Self)
        requires
            Self::ctx_wf(self.context_model()),
            Self::val_wf(self.context_model(), self.value_model()),
            Self::val_wf(self.context_model(), rhs.value_model()),
            rhs.context_model() == self.context_model(),
        ensures
            r.context_model() == self.context_model(),
            r.value_model() == Self::add_model(
                self.context_model(),
                self.value_model(),
                Self::neg_model(self.context_model(), rhs.value_model()),
            ),
            Self::val_wf(self.context_model(), r.value_model()),
    ;

    /// Additive inverse within the field.
    fn neg(&self) -> (r: Self)
        requires
            Self::ctx_wf(self.context_model()),
            Self::val_wf(self.context_model(), self.value_model()),
        ensures
            r.context_model() == self.context_model(),
            r.value_model() == Self::neg_model(self.context_model(), self.value_model()),
            Self::val_wf(self.context_model(), r.value_model()),
    ;

    /// Product within the field.
    fn mul(&self, rhs: &Self) -> (r: Self)
        requires
            Self::ctx_wf(self.context_model()),
            Self::val_wf(self.context_model(), self.value_model()),
            Self::val_wf(self.context_model(), rhs.value_model()),
            rhs.context_model() == self.context_model(),
        ensures
            r.context_model() == self.context_model(),
            r.value_model() == Self::mul_model(
                self.context_model(),
                self.value_model(),
                rhs.value_model(),
            ),
            Self::val_wf(self.context_model(), r.value_model()),
    ;

    /// Exponentiation by a non-negative integer, by square-and-multiply.
    fn pow(&self, e: u64) -> (r: Self)
        requires
            Self::ctx_wf(self.context_model()),
            Self::val_wf(self.context_model(), self.value_model()),
        ensures
            r.context_model() == self.context_model(),
            r.value_model() == Self::pow_model(self.context_model(), self.value_model(), e as nat),
            Self::val_wf(self.context_model(), r.value_model()),
    ;

    /// Multiplicative inverse by Fermat exponentiation; the additive identity
    /// has none, and asking for it is reported as a division by zero.
    fn inverse(&self) -> (r: Result<Self, AlgebraError>)
        requires
            Self::ctx_wf(self.context_model()),
            Self::val_wf(self.context_model(), self.value_model()),
            Self::order_model(self.context_model()) <= u64::MAX as int,
        ensures
            r is Err <==> self.value_model() == Self::zero_model(self.context_model()),
            r is Err ==> r->Err_0 == AlgebraError::DivisionByZero,
            r is Ok ==> (r->Ok_0).context_model() == self.context_model(),
            r is Ok ==> (r->Ok_0).value_model() == Self::inv_model(
                self.context_model(),
                self.value_model(),
            ),
            r is Ok ==> Self::val_wf(self.context_model(), (r->Ok_0).value_model()),
    ;

    /// Division: the product with the inverse of `rhs`; division by the
    /// additive identity is reported as an error.
    fn div(&self, rhs: &Self) -> (r: Result<Self, AlgebraError>)
        requires
            Self::ctx_wf(self.context_model()),
            Self::val_wf(self.context_model(), self.value_model()),
            Self::val_wf(self.context_model(), rhs.value_model()),
            rhs.context_model() == self.context_model(),
            Self::order_model(self.context_model()) <= u64::MAX as int,
        ensures
            r is Err <==> rhs.value_model() == Self::zero_model(self.context_model()),
            r is Err ==> r->Err_0 == AlgebraError::DivisionByZero,
            r is Ok ==> (r->Ok_0).context_model() == self.context_model(),
            r is Ok ==> (r->Ok_0).value_model() == Self::mul_model(
                self.context_model(),
                self.value_model(),
                Self::inv_model(self.context_model(), rhs.value_model()),
            ),
            r is Ok ==> Self::val_wf(self.context_model(), (r->Ok_0).value_model()),
    ;

    /// The additive identity of the field this element belongs to.
    fn zero_of(&self) -> (r: Self)
        requires
            Self::ctx_wf(self.context_model()),
        ensures
            r.context_model() == self.context_model(),
            r.value_model() == Self::zero_model(self.context_model()),
            Self::val_wf(self.context_model(), r.value_model()),
    ;

    /// The multiplicative identity of the field this element belongs to.
    fn one_of(&self) -> (r: Self)
        requires
            Self::ctx_wf(self.context_model()),
        ensures
            r.context_model() == self.context_model(),
            r.value_model() == Self::one_model(self.context_model()),
            Self::val_wf(self.context_model(), r.value_model()),
    ;

    /// An element with the same context and value.
    fn dup(&self) -> (r: Self)
        ensures
            r.context_model() == self.context_model(),
            r.value_model() == self.value_model(),
    ;

    /// Structural equality of two elements of the same field.
    fn equals(&self, rhs: &Self) -> (b: bool)
        requires
            Self::ctx_wf(self.context_model()),
            Self::val_wf(self.context_model(), self.value_model()),
            Self::val_wf(self.context_model(), rhs.value_model()),
            rhs.context_model() == self.context_model(),
        ensures
            b == (self.value_model() == rhs.value_model()),
    ;

    /// Whether this element is the additive identity.
    fn is_zero(&self) -> (b: bool)
        requires
            Self::ctx_wf(self.context_model()),
            Self::val_wf(self.context_model(), self.value_model()),
        ensures
            b == (self.value_model() == Self::zero_model(self.context_model())),
    ;

    /// The prime underlying the field.
    fn characteristic(&self) -> (r: u64)
        requires
            Self::ctx_wf(self.context_model()),
        ensures
            r as int == Self::char_model(self.context_model()),
    ;

    /// The extension degree over the prime subfield.
    fn extension_degree(&self) -> (r: usize)
        requires
            Self::ctx_wf(self.context_model()),
        ensures
            r as int == Self::deg_model(self.context_model()),
    ;

    /// The element count of the field.
    fn order(&self) -> (r: u64)
        requires
            Self::ctx_wf(self.context_model()),
            Self::order_model(self.context_model()) <= u64::MAX as int,
        ensures
            r as int == Self::order_model(self.context_model()),
    ;

    /// Law: a well-formed context has a characteristic of at least two, a
    /// degree of at least one, and an order that is the characteristic raised
    /// to the degree.
    proof fn lemma_ctx_facts(c: Seq<int>)
        requires
            Self::ctx_wf(c),
        ensures
            Self::char_model(c) >= 2,
            Self::deg_model(c) >= 1,
            Self::order_model(c) == pow(Self::char_model(c), Self::deg_model(c) as nat),
            Self::order_model(c) >= 2,
    ;

    /// Law: addition is commutative.
    proof fn lemma_add_comm(c: Seq<int>, x: Seq<int>, y: Seq<int>)
        requires
            Self::ctx_wf(c),
            Self::val_wf(c, x),
            Self::val_wf(c, y),
        ensures
            Self::add_model(c, x, y) == Self::add_model(c, y, x),
    ;

    /// Law: addition is associative.
    proof fn lemma_add_assoc(c: Seq<int>, x: Seq<int>, y: Seq<int>, z: Seq<int>)
        requires
            Self::ctx_wf(c),
            Self::val_wf(c, x),
            Self::val_wf(c, y),
            Self::val_wf(c, z),
        ensures
            Self::add_model(c, Self::add_model(c, x, y), z) == Self::add_model(
                c,
                x,
                Self::add_model(c, y, z),
            ),
    ;

    /// Law: the additive identity is neutral.
    proof fn lemma_add_zero(c: Seq<int>, x: Seq<int>)
        requires
            Self::ctx_wf(c),
            Self::val_wf(c, x),
        ensures
            Self::add_model(c, x, Self::zero_model(c)) == x,
    ;

    /// Law: an element plus its additive inverse is the additive identity.
    proof fn lemma_add_neg(c: Seq<int>, x: Seq<int>)
        requires
            Self::ctx_wf(c),
            Self::val_wf(c, x),
        ensures
            Self::add_model(c, x, Self::neg_model(c, x)) == Self::zero_model(c),
    ;

    /// Law: multiplication is commutative.
    proof fn lemma_mul_comm(c: Seq<int>, x: Seq<int>, y: Seq<int>)
        requires
            Self::ctx_wf(c),
            Self::val_wf(c, x),
            Self::val_wf(c, y),
        ensures
            Self::mul_model(c, x, y) == Self::mul_model(c, y, x),
    ;

    /// Law: the multiplicative identity is neutral.
    proof fn lemma_mul_one(c: Seq<int>, x: Seq<int>)
        requires
            Self::ctx_wf(c),
            Self::val_wf(c, x),
        ensures
            Self::mul_model(c, x, Self::one_model(c)) == x,
    ;

    /// Law: multiplying by the additive identity gives the additive identity.
    proof fn lemma_mul_zero(c: Seq<int>, x: Seq<int>)
        requires
            Self::ctx_wf(c),
            Self::val_wf(c, x),
        ensures
            Self::mul_model(c, x, Self::zero_model(c)) == Self::zero_model(c),
    ;

    /// Law: addition stays within the field.
    proof fn lemma_add_wf(c: Seq<int>, x: Seq<int>, y: Seq<int>)
        requires
            Self::ctx_wf(c),
            Self::val_wf(c, x),
            Self::val_wf(c, y),
        ensures
            Self::val_wf(c, Self::add_model(c, x, y)),
    ;

    /// Law: negation stays within the field.
    proof fn lemma_neg_wf(c: Seq<int>, x: Seq<int>)
        requires
            Self::ctx_wf(c),
            Self::val_wf(c, x),
        ensures
            Self::val_wf(c, Self::neg_model(c, x)),
    ;

    /// Law: multiplication stays within the field.
    proof fn lemma_mul_wf(c: Seq<int>, x: Seq<int>, y: Seq<int>)
        requires
            Self::ctx_wf(c),
            Self::val_wf(c, x),
            Self::val_wf(c, y),
        ensures
            Self::val_wf(c, Self::mul_model(c, x, y)),
    ;

    /// Law: the additive identity lies within the field.
    proof fn lemma_zero_wf(c: Seq<int>)
        requires
            Self::ctx_wf(c),
        ensures
            Self::val_wf(c, Self::zero_model(c)),
    ;

    /// Law: the multiplicative identity lies within the field.
    proof fn lemma_one_wf(c: Seq<int>)
        requires
            Self::ctx_wf(c),
        ensures
            Self::val_wf(c, Self::one_model(c)),
    ;

    /// Law: the computed inverse stays within the field.
    proof fn lemma_inv_wf(c: Seq<int>, x: Seq<int>)
        requires
            Self::ctx_wf(c),
            Self::val_wf(c, x),
        ensures
            Self::val_wf(c, Self::inv_model(c, x)),
    ;
}

/// A value together with a well-formed context.
pub open spec fn fwf<F: Field>(x: F) -> bool {
    F::ctx_wf(x.context_model()) && F::val_wf(x.context_model(), x.value_model())
}

/// Left fold of the first `n` of the terms `ts` under field addition,
/// starting from the additive identity: the model of every accumulation loop
/// in the containers (convolution entries, circulant entries, matrix product
/// entries).
pub open spec fn acc_model<F: Field>(c: Seq<int>, ts: Seq<Seq<int>>, n: int) -> Seq<int>
    decreases n,
{
    if n <= 0 {
        F::zero_model(c)
    } else {
        F::add_model(c, acc_model::<F>(c, ts, n - 1), ts[n - 1])
    }
}

/// An accumulation of terms that all are the additive identity is the
/// additive identity.
pub proof fn lemma_acc_zero<F: Field>(c: Seq<int>, ts: Seq<Seq<int>>, n: int)
    requires
        F::ctx_wf(c),
        0 <= n <= ts.len(),
        forall|j: int| 0 <= j < n ==> ts[j] == F::zero_model(c),
    ensures
        acc_model::<F>(c, ts, n) == F::zero_model(c),
    decreases n,
{
    F::lemma_zero_wf(c);
    if n > 0 {
        lemma_acc_zero::<F>(c, ts, n - 1);
        F::lemma_add_zero(c, F::zero_model(c));
    }
}

/// An accumulation whose terms are all the additive identity except the one
/// at index `i` yields exactly that term.
pub proof fn lemma_acc_impulse<F: Field>(c: Seq<int>, ts: Seq<Seq<int>>, n: int, i: int)
    requires
        F::ctx_wf(c),
        0 <= i < n <= ts.len(),
        forall|j: int| 0 <= j < n && j != i ==> ts[j] == F::zero_model(c),
        F::val_wf(c, ts[i]),
    ensures
        acc_model::<F>(c, ts, n) == ts[i],
    decreases n,
{
    F::lemma_zero_wf(c);
    if n - 1 == i {
        lemma_acc_zero::<F>(c, ts, n - 1);
        F::lemma_add_zero(c, ts[i]);
        F::lemma_add_comm(c, F::zero_model(c), ts[i]);
    } else {
        lemma_acc_impulse::<F>(c, ts, n - 1, i);
        F::lemma_add_zero(c, ts[i]);
    }
}

/// Accumulation stays within the field.
pub proof fn lemma_acc_wf<F: Field>(c: Seq<int>, ts: Seq<Seq<int>>, n: int)
    requires
        F::ctx_wf(c),
        forall|j: int| 0 <= j < n ==> F::val_wf(c, ts[j]),
    ensures
        F::val_wf(c, acc_model::<F>(c, ts, n)),
    decreases n,
{
    F::lemma_zero_wf(c);
    if n > 0 {
        lemma_acc_wf::<F>(c, ts, n - 1);
        F::lemma_add_wf(c, acc_model::<F>(c, ts, n - 1), ts[n - 1]);
    }
}

/// Two accumulations of pointwise-equal term sequences are equal.
pub proof fn lemma_acc_congruence<F: Field>(c: Seq<int>, ts: Seq<Seq<int>>, us: Seq<Seq<int>>, n: int)
    requires
        forall|j: int| 0 <= j < n ==> ts[j] == us[j],
    ensures
        acc_model::<F>(c, ts, n) == acc_model::<F>(c, us, n),
    decreases n,
{
    if n > 0 {
        lemma_acc_congruence::<F>(c, ts, us, n - 1);
    }
}

/// Terms that are the additive identity can be dropped from the end of an
/// accumulation.
pub proof fn lemma_acc_zero_suffix<F: Field>(c: Seq<int>, ts: Seq<Seq<int>>, n1: int, n2: int)
    requires
        F::ctx_wf(c),
        0 <= n1 <= n2 <= ts.len(),
        forall|j: int| 0 <= j < n2 ==> F::val_wf(c, #[trigger] ts[j]),
        forall|j: int| n1 <= j < n2 ==> ts[j] == F::zero_model(c),
    ensures
        acc_model::<F>(c, ts, n2) == acc_model::<F>(c, ts, n1),
    decreases n2 - n1,
{
    if n1 < n2 {
        lemma_acc_zero_suffix::<F>(c, ts, n1, n2 - 1);
        lemma_acc_wf::<F>(c, ts, n2 - 1);
        F::lemma_add_zero(c, acc_model::<F>(c, ts, n2 - 1));
    }
}

/// An accumulation can be split at its first term: folding `n` terms equals
/// folding the last `n - 1` of them and then adding the first.
pub proof fn lemma_acc_head<F: Field>(c: Seq<int>, ts: Seq<Seq<int>>, n: int)
    requires
        F::ctx_wf(c),
        1 <= n <= ts.len(),
        forall|j: int| 0 <= j < n ==> F::val_wf(c, #[trigger] ts[j]),
    ensures
        acc_model::<F>(c, ts, n) == F::add_model(
            c,
            acc_model::<F>(c, ts.subrange(1, ts.len() as int), n - 1),
            ts[0],
        ),
    decreases n,
{
    let tail = ts.subrange(1, ts.len() as int);
    F::lemma_zero_wf(c);
    assert(forall|j: int| 0 <= j < n - 1 ==> tail[j] == ts[j + 1]);
    if n == 1 {
        assert(acc_model::<F>(c, ts, 0) == F::zero_model(c));
        assert(acc_model::<F>(c, ts, 1) == F::add_model(c, F::zero_model(c), ts[0]));
        assert(acc_model::<F>(c, tail, 0) == F::zero_model(c));
    } else {
        lemma_acc_head::<F>(c, ts, n - 1);
        lemma_acc_wf::<F>(c, tail, n - 2);
        let a0 = acc_model::<F>(c, tail, n - 2);
        assert(acc_model::<F>(c, ts, n) == F::add_model(
            c,
            F::add_model(c, a0, ts[0]),
            ts[n - 1],
        ));
        F::lemma_add_assoc(c, a0, ts[0], ts[n - 1]);
        F::lemma_add_comm(c, ts[0], ts[n - 1]);
        F::lemma_add_assoc(c, a0, ts[n - 1], ts[0]);
        assert(tail[n - 2] == ts[n - 1]);
        assert(acc_model::<F>(c, tail, n - 1) == F::add_model(c, a0, tail[n - 2]));
    }
}

/// Accumulation is invariant under reversing the terms.
pub proof fn lemma_acc_reverse<F: Field>(c: Seq<int>, ts: Seq<Seq<int>>, n: int)
    requires
        F::ctx_wf(c),
        0 <= n <= ts.len(),
        forall|j: int| 0 <= j < n ==> F::val_wf(c, #[trigger] ts[j]),
    ensures
        acc_model::<F>(c, Seq::new(n as nat, |j: int| ts[n - 1 - j]), n) == acc_model::<F>(
            c,
            ts,
            n,
        ),
    decreases n,
{
    let rs = Seq::new(n as nat, |j: int| ts[n - 1 - j]);
    if n > 0 {
        let tail = ts.subrange(1, ts.len() as int);
        let rs_tail = Seq::new((n - 1) as nat, |j: int| tail[n - 2 - j]);
        assert(forall|j: int| 0 <= j < n - 1 ==> F::val_wf(c, #[trigger] tail[j]));
        lemma_acc_reverse::<F>(c, tail, n - 1);
        lemma_acc_head::<F>(c, ts, n);
        assert(rs.subrange(0, (n - 1) as int) =~= Seq::new(
            (n - 1) as nat,
            |j: int| ts[n - 1 - j],
        ));
        lemma_acc_congruence::<F>(c, rs, rs_tail, n - 1);
        assert(rs[n - 1] == ts[0]);
    }
}

/// Accumulating pointwise sums is adding the two accumulations.
pub proof fn lemma_acc_pointwise_add<F: Field>(
    c: Seq<int>,
    ts: Seq<Seq<int>>,
    us: Seq<Seq<int>>,
    vs: Seq<Seq<int>>,
    n: int,
)
    requires
        F::ctx_wf(c),
        0 <= n <= ts.len(),
        n <= us.len(),
        n <= vs.len(),
        forall|j: int| 0 <= j < n ==> F::val_wf(c, #[trigger] ts[j]),
        forall|j: int| 0 <= j < n ==> F::val_wf(c, #[trigger] us[j]),
        forall|j: int| 0 <= j < n ==> #[trigger] vs[j] == F::add_model(c, ts[j], us[j]),
    ensures
        acc_model::<F>(c, vs, n) == F::add_model(
            c,
            acc_model::<F>(c, ts, n),
            acc_model::<F>(c, us, n),
        ),
    decreases n,
{
    F::lemma_zero_wf(c);
    if n == 0 {
        F::lemma_add_zero(c, F::zero_model(c));
    } else {
        lemma_acc_pointwise_add::<F>(c, ts, us, vs, n - 1);
        lemma_acc_wf::<F>(c, ts, n - 1);
        lemma_acc_wf::<F>(c, us, n - 1);
        let at = acc_model::<F>(c, ts, n - 1);
        let au = acc_model::<F>(c, us, n - 1);
        let t = ts[n - 1];
        let u = us[n - 1];
        F::lemma_add_wf(c, t, u);
        F::lemma_add_wf(c, au, t);
        F::lemma_add_wf(c, t, au);
        // add(add(at, au), add(t, u)) == add(add(at, t), add(au, u))
        F::lemma_add_assoc(c, at, au, F::add_model(c, t, u));
        F::lemma_add_assoc(c, au, t, u);
        F::lemma_add_comm(c, au, t);
        F::lemma_add_assoc(c, t, au, u);
        F::lemma_add_wf(c, au, u);
        F::lemma_add_assoc(c, at, t, F::add_model(c, au, u));
    }
}

/// The two ring laws that the trait does not oblige of every
/// implementation: associativity of multiplication, and distribution of
/// multiplication over addition.  The prime field satisfies them; laws
/// that need them take them as an explicit premise.
pub open spec fn ring_mul_laws<F: Field>(c: Seq<int>) -> bool {
    &&& forall|x: Seq<int>, y: Seq<int>, z: Seq<int>|
        F::val_wf(c, x) && F::val_wf(c, y) && F::val_wf(c, z) ==> #[trigger] F::mul_model(
            c,
            F::mul_model(c, x, y),
            z,
        ) == F::mul_model(c, x, F::mul_model(c, y, z))
    &&& forall|x: Seq<int>, y: Seq<int>, z: Seq<int>|
        F::val_wf(c, x) && F::val_wf(c, y) && F::val_wf(c, z) ==> #[trigger] F::mul_model(
            c,
            x,
            F::add_model(c, y, z),
        ) == F::add_model(c, F::mul_model(c, x, y), F::mul_model(c, x, z))
}

/// Multiplying an accumulation by a factor on the right multiplies every
/// term: distribution over the fold.
pub proof fn lemma_acc_mul_right<F: Field>(
    c: Seq<int>,
    ts: Seq<Seq<int>>,
    us: Seq<Seq<int>>,
    x: Seq<int>,
    n: int,
)
    requires
        F::ctx_wf(c),
        ring_mul_laws::<F>(c),
        0 <= n <= ts.len(),
        n <= us.len(),
        F::val_wf(c, x),
        forall|j: int| 0 <= j < n ==> F::val_wf(c, #[trigger] ts[j]),
        forall|j: int| 0 <= j < n ==> #[trigger] us[j] == F::mul_model(c, ts[j], x),
    ensures
        F::mul_model(c, acc_model::<F>(c, ts, n), x) == acc_model::<F>(c, us, n),
    decreases n,
{
    F::lemma_zero_wf(c);
    if n == 0 {
        F::lemma_mul_comm(c, F::zero_model(c), x);
        F::lemma_mul_zero(c, x);
    } else {
        lemma_acc_mul_right::<F>(c, ts, us, x, n - 1);
        lemma_acc_wf::<F>(c, ts, n - 1);
        let at = acc_model::<F>(c, ts, n - 1);
        let t = ts[n - 1];
        F::lemma_add_wf(c, at, t);
        F::lemma_mul_comm(c, F::add_model(c, at, t), x);
        assert(F::mul_model(c, x, F::add_model(c, at, t)) == F::add_model(
            c,
            F::mul_model(c, x, at),
            F::mul_model(c, x, t),
        ));
        F::lemma_mul_comm(c, x, at);
        F::lemma_mul_comm(c, x, t);
    }
}

/// Multiplying an accumulation by a factor on the left multiplies every
/// term: distribution over the fold.
pub proof fn lemma_acc_mul_left<F: Field>(
    c: Seq<int>,
    ts: Seq<Seq<int>>,
    us: Seq<Seq<int>>,
    x: Seq<int>,
    n: int,
)
    requires
        F::ctx_wf(c),
        ring_mul_laws::<F>(c),
        0 <= n <= ts.len(),
        n <= us.len(),
        F::val_wf(c, x),
        forall|j: int| 0 <= j < n ==> F::val_wf(c, #[trigger] ts[j]),
        forall|j: int| 0 <= j < n ==> #[trigger] us[j] == F::mul_model(c, x, ts[j]),
    ensures
        F::mul_model(c, x, acc_model::<F>(c, ts, n)) == acc_model::<F>(c, us, n),
    decreases n,
{
    F::lemma_zero_wf(c);
    if n == 0 {
        F::lemma_mul_zero(c, x);
    } else {
        lemma_acc_mul_left::<F>(c, ts, us, x, n - 1);
        lemma_acc_wf::<F>(c, ts, n - 1);
        let at = acc_model::<F>(c, ts, n - 1);
        let t = ts[n - 1];
        assert(F::mul_model(c, x, F::add_model(c, at, t)) == F::add_model(
            c,
            F::mul_model(c, x, at),
            F::mul_model(c, x, t),
        ));
    }
}

/// The row-wise sums of a grid of terms, each row folded over its first
/// `n` entries.
pub open spec fn grid_rows<F: Field>(c: Seq<int>, g: Seq<Seq<Seq<int>>>, n: int) -> Seq<Seq<int>> {
    Seq::new(g.len(), |i: int| acc_model::<F>(c, g[i], n))
}

/// The total of a grid of terms: the fold of its first `rows` row sums,
/// each over its first `n` entries.
pub open spec fn grid_sum<F: Field>(c: Seq<int>, g: Seq<Seq<Seq<int>>>, rows: int, n: int) -> Seq<
    int,
> {
    acc_model::<F>(c, grid_rows::<F>(c, g, n), rows)
}

/// The transposed grid, over a `rows` by `n` window.
pub open spec fn grid_transpose(g: Seq<Seq<Seq<int>>>, rows: int, n: int) -> Seq<Seq<Seq<int>>> {
    Seq::new(n as nat, |j: int| Seq::new(rows as nat, |i: int| g[i][j]))
}

/// Summing a grid row by row equals summing it column by column: the two
/// iterated folds of a rectangle of terms agree.
pub proof fn lemma_grid_exchange<F: Field>(c: Seq<int>, g: Seq<Seq<Seq<int>>>, rows: int, n: int)
    requires
        F::ctx_wf(c),
        0 <= rows <= g.len(),
        0 <= n,
        forall|i: int| 0 <= i < rows ==> n <= (#[trigger] g[i]).len(),
        forall|i: int, j: int| 0 <= i < rows && 0 <= j < n ==> F::val_wf(c, #[trigger] g[i][j]),
    ensures
        grid_sum::<F>(c, g, rows, n) == grid_sum::<F>(c, grid_transpose(g, rows, n), n, rows),
    decreases n,
{
    F::lemma_zero_wf(c);
    let gt = grid_transpose(g, rows, n);
    if n == 0 {
        assert forall|i: int| 0 <= i < rows implies #[trigger] grid_rows::<F>(c, g, 0)[i]
            == F::zero_model(c) by {}
        lemma_acc_zero::<F>(c, grid_rows::<F>(c, g, 0), rows);
    } else {
        let gt1 = grid_transpose(g, rows, n - 1);
        lemma_grid_exchange::<F>(c, g, rows, n - 1);
        // each row sum over n entries is the sum over n - 1 plus the last
        let rsn = grid_rows::<F>(c, g, n);
        let rs1 = grid_rows::<F>(c, g, n - 1);
        let coln = Seq::new(rows as nat, |i: int| g[i][n - 1]);
        assert(forall|i: int|
            0 <= i < rows ==> #[trigger] rsn[i] == F::add_model(c, rs1[i], coln[i]));
        assert forall|i: int| 0 <= i < rows implies F::val_wf(c, #[trigger] rs1[i]) by {
            lemma_acc_wf::<F>(c, g[i], n - 1);
        }
        assert(forall|i: int| 0 <= i < rows ==> F::val_wf(c, #[trigger] coln[i]));
        lemma_acc_pointwise_add::<F>(c, rs1, coln, rsn, rows);
        // the transposed sum peels its last row, which is that column
        let tn = grid_rows::<F>(c, gt, rows);
        assert(grid_sum::<F>(c, gt, n, rows) == F::add_model(
            c,
            acc_model::<F>(c, tn, n - 1),
            tn[n - 1],
        ));
        assert(gt[n - 1] =~= coln);
        lemma_acc_congruence::<F>(c, gt[n - 1], coln, rows);
        assert(tn[n - 1] == acc_model::<F>(c, coln, rows));
        // on the first n - 1 columns the two transposes agree
        assert forall|j: int| 0 <= j < n - 1 implies #[trigger] tn[j] == grid_rows::<F>(
            c,
            gt1,
            rows,
        )[j] by {
            assert(gt[j] =~= gt1[j]);
            lemma_acc_congruence::<F>(c, gt[j], gt1[j], rows);
        }
        lemma_acc_congruence::<F>(c, tn, grid_rows::<F>(c, gt1, rows), n - 1);
    }
}

/// Raising one term of an accumulation from the additive identity to a
/// value adds exactly that value to the fold.
pub proof fn lemma_acc_update<F: Field>(
    c: Seq<int>,
    ts: Seq<Seq<int>>,
    us: Seq<Seq<int>>,
    n: int,
    s0: int,
)
    requires
        F::ctx_wf(c),
        0 <= s0 < n <= ts.len(),
        n <= us.len(),
        forall|j: int| 0 <= j < n && j != s0 ==> ts[j] == us[j],
        ts[s0] == F::zero_model(c),
        forall|j: int| 0 <= j < n ==> F::val_wf(c, #[trigger] ts[j]),
        forall|j: int| 0 <= j < n ==> F::val_wf(c, #[trigger] us[j]),
    ensures
        acc_model::<F>(c, us, n) == F::add_model(c, acc_model::<F>(c, ts, n), us[s0]),
    decreases n,
{
    F::lemma_zero_wf(c);
    if n - 1 == s0 {
        lemma_acc_congruence::<F>(c, us, ts, n - 1);
        lemma_acc_wf::<F>(c, ts, n - 1);
        F::lemma_add_zero(c, acc_model::<F>(c, ts, n - 1));
    } else {
        lemma_acc_update::<F>(c, ts, us, n - 1, s0);
        lemma_acc_wf::<F>(c, ts, n - 1);
        let a0 = acc_model::<F>(c, ts, n - 1);
        F::lemma_add_assoc(c, a0, us[s0], us[n - 1]);
        F::lemma_add_comm(c, us[s0], us[n - 1]);
        F::lemma_add_assoc(c, a0, us[n - 1], us[s0]);
        assert(ts[n - 1] == us[n - 1]);
    }
}

/// Terms that are the additive identity can be dropped from the front of an
/// accumulation, shifting the rest down.
pub proof fn lemma_acc_zero_prefix<F: Field>(c: Seq<int>, ts: Seq<Seq<int>>, s: int, n: int)
    requires
        F::ctx_wf(c),
        0 <= s <= n <= ts.len(),
        forall|j: int| 0 <= j < n ==> F::val_wf(c, #[trigger] ts[j]),
        forall|j: int| 0 <= j < s ==> ts[j] == F::zero_model(c),
    ensures
        acc_model::<F>(c, ts, n) == acc_model::<F>(
            c,
            Seq::new((n - s) as nat, |j: int| ts[j + s]),
            n - s,
        ),
    decreases s,
{
    let shifted = Seq::new((n - s) as nat, |j: int| ts[j + s]);
    if s == 0 {
        lemma_acc_congruence::<F>(c, ts, shifted, n);
    } else {
        let tail = ts.subrange(1, ts.len() as int);
        assert(forall|j: int| 0 <= j < n - 1 ==> tail[j] == ts[j + 1]);
        if n == s {
            lemma_acc_zero_suffix::<F>(c, ts, 0, n);
        } else {
            lemma_acc_head::<F>(c, ts, n);
            lemma_acc_zero_prefix::<F>(c, tail, s - 1, n - 1);
            let shifted2 = Seq::new((n - 1 - (s - 1)) as nat, |j: int| tail[j + (s - 1)]);
            assert(forall|j: int| 0 <= j < n - s ==> shifted2[j] == shifted[j]);
            lemma_acc_congruence::<F>(c, shifted2, shifted, n - s);
            assert(forall|j: int| 0 <= j < n - s ==> F::val_wf(c, #[trigger] shifted2[j]));
            lemma_acc_wf::<F>(c, shifted2, n - s);
            F::lemma_add_zero(c, acc_model::<F>(c, shifted2, n - s));
            assert(acc_model::<F>(c, ts, n) == F::add_model(
                c,
                acc_model::<F>(c, tail, n - 1),
                ts[0],
            ));
            assert(acc_model::<F>(c, tail, n - 1) == acc_model::<F>(c, shifted2, n - s));
            assert(F::add_model(c, acc_model::<F>(c, shifted2, n - s), F::zero_model(c))
                == acc_model::<F>(c, shifted2, n - s));
        }
    }
}

} // verus!
