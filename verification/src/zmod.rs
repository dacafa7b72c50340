//! Integer-level model of arithmetic modulo a prime.
//!
//! Every contract of the prime-field element type is stated over the spec
//! functions of this module, which work on mathematical integers.  A residue
//! is *canonical* when it lies in `[0, p)`; see [`in_field`].  The lemmas
//! below establish the field laws for these operations, and that binary
//! (square-and-multiply) exponentiation agrees with repeated multiplication.

use vstd::arithmetic::div_mod::{
    lemma_add_mod_noop, lemma_mod_pos_bound, lemma_mod_self_0, lemma_mul_mod_noop_left,
    lemma_mul_mod_noop_right, lemma_small_mod,
};
use vstd::arithmetic::mul::{
    lemma_mul_is_associative, lemma_mul_is_distributive_add, lemma_mul_nonnegative,
};
use vstd::prelude::*;

verus! {

/// Whether `a` is a canonical residue modulo `p`.
pub open spec fn in_field(p: int, a: int) -> bool {
    0 <= a < p
}

/// Canonical residue of `a + b` modulo `p`.
pub open spec fn add_z(p: int, a: int, b: int) -> int {
    (a + b) % p
}

/// Additive inverse of the canonical residue `a` modulo `p`.
pub open spec fn neg_z(p: int, a: int) -> int {
    if a == 0 {
        0
    } else {
        p - a
    }
}

/// Canonical residue of `a * b` modulo `p`.
pub open spec fn mul_z(p: int, a: int, b: int) -> int {
    (a * b) % p
}

/// `e`-fold repeated multiplication by `a` modulo `p`, starting from one.
pub open spec fn pow_z(p: int, a: int, e: nat) -> int
    decreases e,
{
    if e == 0 {
        1
    } else {
        mul_z(p, a, pow_z(p, a, (e - 1) as nat))
    }
}

/// Square-and-multiply accumulator: the state left by the binary
/// exponentiation loop after consuming the bits of `e`, starting from the
/// accumulator `acc` and the running square `base`.
pub open spec fn sqm_z(p: int, acc: int, base: int, e: nat) -> int
    decreases e,
{
    if e == 0 {
        acc
    } else {
        sqm_z(
            p,
            if e % 2 == 1 {
                mul_z(p, acc, base)
            } else {
                acc
            },
            mul_z(p, base, base),
            e / 2,
        )
    }
}

/// What the Fermat-style inversion computes: `a` raised to `p - 2` by
/// square-and-multiply.  For a prime `p` and `a != 0` this is the
/// multiplicative inverse of `a` modulo `p`.
pub open spec fn inv_z(p: int, a: int) -> int {
    sqm_z(p, 1, a, (p - 2) as nat)
}

/// Addition of residues stays canonical.
pub proof fn lemma_add_z_wf(p: int, a: int, b: int)
    requires
        p >= 1,
        0 <= a,
        0 <= b,
    ensures
        in_field(p, add_z(p, a, b)),
{
    lemma_mod_pos_bound(a + b, p);
}

/// Multiplication of residues stays canonical.
pub proof fn lemma_mul_z_wf(p: int, a: int, b: int)
    requires
        p >= 1,
        0 <= a,
        0 <= b,
    ensures
        in_field(p, mul_z(p, a, b)),
{
    lemma_mul_nonnegative(a, b);
    lemma_mod_pos_bound(a * b, p);
}

/// Negation of a canonical residue stays canonical.
pub proof fn lemma_neg_z_wf(p: int, a: int)
    requires
        p >= 1,
        in_field(p, a),
    ensures
        in_field(p, neg_z(p, a)),
{
}

/// Modular addition is commutative.
pub proof fn lemma_add_z_comm(p: int, a: int, b: int)
    ensures
        add_z(p, a, b) == add_z(p, b, a),
{
}

/// Modular addition is associative on canonical residues.
pub proof fn lemma_add_z_assoc(p: int, a: int, b: int, c: int)
    requires
        p >= 1,
        in_field(p, a),
        in_field(p, b),
        in_field(p, c),
    ensures
        add_z(p, add_z(p, a, b), c) == add_z(p, a, add_z(p, b, c)),
{
    lemma_small_mod(a as nat, p as nat);
    lemma_small_mod(c as nat, p as nat);
    lemma_add_mod_noop(a + b, c, p);
    lemma_add_mod_noop(a, b + c, p);
}

/// Adding the zero residue changes nothing.
pub proof fn lemma_add_z_zero(p: int, a: int)
    requires
        p >= 1,
        in_field(p, a),
    ensures
        add_z(p, a, 0) == a,
{
    lemma_small_mod(a as nat, p as nat);
}

/// A canonical residue plus its additive inverse is zero.
pub proof fn lemma_add_z_neg(p: int, a: int)
    requires
        p >= 1,
        in_field(p, a),
    ensures
        add_z(p, a, neg_z(p, a)) == 0,
{
    if a == 0 {
        lemma_small_mod(0, p as nat);
    } else {
        lemma_mod_self_0(p);
    }
}

/// Modular multiplication is commutative.
pub proof fn lemma_mul_z_comm(p: int, a: int, b: int)
    ensures
        mul_z(p, a, b) == mul_z(p, b, a),
{
    assert(a * b == b * a) by (nonlinear_arith);
}

/// Modular multiplication is associative on canonical residues.
pub proof fn lemma_mul_z_assoc(p: int, a: int, b: int, c: int)
    requires
        p >= 1,
    ensures
        mul_z(p, mul_z(p, a, b), c) == mul_z(p, a, mul_z(p, b, c)),
{
    lemma_mul_mod_noop_left(a * b, c, p);
    lemma_mul_mod_noop_right(a, b * c, p);
    lemma_mul_is_associative(a, b, c);
}

/// Multiplying by the unit residue changes nothing.
pub proof fn lemma_mul_z_one(p: int, a: int)
    requires
        p >= 1,
        in_field(p, a),
    ensures
        mul_z(p, a, 1) == a,
{
    lemma_small_mod(a as nat, p as nat);
}

/// Multiplying by the zero residue gives zero.
pub proof fn lemma_mul_z_zero(p: int, a: int)
    requires
        p >= 1,
    ensures
        mul_z(p, a, 0) == 0,
{
    lemma_small_mod(0, p as nat);
}

/// Modular multiplication distributes over modular addition.
pub proof fn lemma_mul_z_distrib(p: int, a: int, b: int, c: int)
    requires
        p >= 1,
    ensures
        mul_z(p, a, add_z(p, b, c)) == add_z(p, mul_z(p, a, b), mul_z(p, a, c)),
{
    lemma_mul_mod_noop_right(a, b + c, p);
    lemma_mul_is_distributive_add(a, b, c);
    lemma_add_mod_noop(a * b, a * c, p);
}

/// Repeated multiplication stays canonical.
pub proof fn lemma_pow_z_wf(p: int, a: int, e: nat)
    requires
        p >= 2,
        0 <= a,
    ensures
        in_field(p, pow_z(p, a, e)),
    decreases e,
{
    if e == 0 {
    } else {
        lemma_pow_z_wf(p, a, (e - 1) as nat);
        lemma_mul_z_wf(p, a, pow_z(p, a, (e - 1) as nat));
    }
}

/// Repeated multiplication splits over a sum of exponents.
pub proof fn lemma_pow_z_add(p: int, a: int, e1: nat, e2: nat)
    requires
        p >= 2,
        in_field(p, a),
    ensures
        pow_z(p, a, e1 + e2) == mul_z(p, pow_z(p, a, e1), pow_z(p, a, e2)),
    decreases e1,
{
    lemma_pow_z_wf(p, a, e2);
    if e1 == 0 {
        lemma_mul_z_one(p, pow_z(p, a, e2));
        lemma_mul_z_comm(p, pow_z(p, a, e2), 1);
    } else {
        lemma_pow_z_add(p, a, (e1 - 1) as nat, e2);
        lemma_mul_z_assoc(p, a, pow_z(p, a, (e1 - 1) as nat), pow_z(p, a, e2));
    }
}

/// Repeated multiplication by a square is repeated multiplication with a
/// doubled exponent.
pub proof fn lemma_pow_z_square(p: int, a: int, e: nat)
    requires
        p >= 2,
        in_field(p, a),
    ensures
        pow_z(p, mul_z(p, a, a), e) == pow_z(p, a, 2 * e),
    decreases e,
{
    if e == 0 {
    } else {
        lemma_pow_z_square(p, a, (e - 1) as nat);
        assert(2 * e == 2 * ((e - 1) as nat) + 2);
        lemma_pow_z_wf(p, a, (2 * e - 2) as nat);
        lemma_mul_z_assoc(p, a, a, pow_z(p, a, (2 * e - 2) as nat));
        assert(pow_z(p, a, (2 * e - 1) as nat) == mul_z(p, a, pow_z(p, a, (2 * e - 2) as nat)));
        assert(pow_z(p, a, 2 * e) == mul_z(p, a, pow_z(p, a, (2 * e - 1) as nat)));
    }
}

/// The square-and-multiply accumulator computes the accumulator times the
/// repeated-multiplication power of the base.
pub proof fn lemma_sqm_z(p: int, acc: int, base: int, e: nat)
    requires
        p >= 2,
        in_field(p, acc),
        in_field(p, base),
    ensures
        sqm_z(p, acc, base, e) == mul_z(p, acc, pow_z(p, base, e)),
    decreases e,
{
    if e == 0 {
        lemma_mul_z_one(p, acc);
    } else {
        let base2 = mul_z(p, base, base);
        let acc2 = if e % 2 == 1 {
            mul_z(p, acc, base)
        } else {
            acc
        };
        lemma_mul_z_wf(p, base, base);
        lemma_mul_z_wf(p, acc, base);
        lemma_sqm_z(p, acc2, base2, e / 2);
        lemma_pow_z_square(p, base, e / 2);
        if e % 2 == 1 {
            assert(e == 2 * (e / 2) + 1);
            lemma_pow_z_add(p, base, 1, 2 * (e / 2));
            lemma_pow_z_wf(p, base, 2 * (e / 2));
            lemma_pow_z_wf(p, base, 1);
            lemma_mul_z_assoc(p, acc, pow_z(p, base, 1), pow_z(p, base, 2 * (e / 2)));
            lemma_pow_z_wf(p, base, (e - 1) as nat);
            lemma_mul_z_one(p, base);
            assert(pow_z(p, base, 0) == 1);
            assert(pow_z(p, base, 1) == mul_z(p, base, 1));
        } else {
            assert(e == 2 * (e / 2));
        }
    }
}

/// Binary exponentiation started from the unit accumulator equals `e`-fold
/// repeated multiplication: the exponentiation-consistency law for the prime
/// field.
pub proof fn lemma_sqm_z_pow(p: int, base: int, e: nat)
    requires
        p >= 2,
        in_field(p, base),
    ensures
        sqm_z(p, 1, base, e) == pow_z(p, base, e),
{
    lemma_sqm_z(p, 1, base, e);
    lemma_pow_z_wf(p, base, e);
    lemma_mul_z_one(p, pow_z(p, base, e));
    lemma_mul_z_comm(p, pow_z(p, base, e), 1);
}

/// The square-and-multiply accumulator stays canonical.
pub proof fn lemma_sqm_z_wf(p: int, acc: int, base: int, e: nat)
    requires
        p >= 2,
        in_field(p, acc),
        in_field(p, base),
    ensures
        in_field(p, sqm_z(p, acc, base, e)),
{
    lemma_sqm_z(p, acc, base, e);
    lemma_pow_z_wf(p, base, e);
    lemma_mul_z_wf(p, acc, pow_z(p, base, e));
}

} // verus!
