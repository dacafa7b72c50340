//! Fermat's little theorem, and with it the correctness of the
//! prime-field inverse.
//!
//! For a prime `p` and `a` not divisible by `p`, the residues
//! `a·1, a·2, …, a·(p−1)` are a permutation of `1, 2, …, p−1`: the Bézout
//! inverse of `a` both separates them and produces, for every target
//! residue, the index that hits it.  Equal multisets have equal products,
//! the products factor as `a^(p−1)·(p−1)!` and `(p−1)!`, and cancelling
//! the factorial — itself invertible — leaves `a^(p−1) ≡ 1`.  The
//! Fermat-style inverse `a^(p−2)` is therefore a true multiplicative
//! inverse.

use crate::zmod::{
    in_field, inv_z, lemma_mul_z_assoc, lemma_mul_z_comm, lemma_mul_z_one, lemma_mul_z_wf,
    lemma_mul_z_zero, lemma_pow_z_wf, lemma_sqm_z_pow, mul_z, pow_z,
};
use vstd::arithmetic::div_mod::{
    lemma_fundamental_div_mod, lemma_mod_bound, lemma_mod_multiples_basic,
    lemma_mod_multiples_vanish, lemma_mul_mod_noop_left, lemma_small_mod,
};
use vstd::prelude::*;
use vstd::seq_lib::{commutative_foldr, lemma_fold_right_permutation};

verus! {

/// Whether `p` is a prime number.
pub open spec fn is_prime(p: int) -> bool {
    2 <= p && forall|d: int| 2 <= d < p ==> #[trigger] (p % d) != 0
}

/// Whether `d` divides `n`.
pub open spec fn divides(d: int, n: int) -> bool {
    exists|q: int| #[trigger] (d * q) == n
}

/// The greatest common divisor, by Euclid's algorithm.
pub open spec fn gcd_z(a: int, b: int) -> int
    decreases b,
{
    if b <= 0 {
        a
    } else {
        gcd_z(b, a % b)
    }
}

/// The greatest common divisor divides both arguments and is positive.
proof fn lemma_gcd_divides(a: int, b: int)
    requires
        a >= 1,
        b >= 0,
    ensures
        gcd_z(a, b) >= 1,
        divides(gcd_z(a, b), a),
        divides(gcd_z(a, b), b),
    decreases b,
{
    let g = gcd_z(a, b);
    if b == 0 {
        assert(a * 1 == a) by (nonlinear_arith);
        assert(a * 0 == 0) by (nonlinear_arith);
    } else {
        lemma_mod_bound(a, b);
        lemma_gcd_divides(b, a % b);
        let qb = choose|q: int| #[trigger] (gcd_z(b, a % b) * q) == b;
        let qr = choose|q: int| #[trigger] (gcd_z(b, a % b) * q) == a % b;
        lemma_fundamental_div_mod(a, b);
        assert(a == b * (a / b) + a % b);
        assert(g * (qb * (a / b) + qr) == (g * qb) * (a / b) + g * qr) by (nonlinear_arith);
        assert(g * (qb * (a / b) + qr) == a);
    }
}

/// Bézout's identity: some integer combination of the arguments yields
/// their greatest common divisor.
proof fn lemma_bezout(a: int, b: int)
    requires
        a >= 1,
        b >= 0,
    ensures
        exists|u: int, v: int| #[trigger] (u * a + v * b) == gcd_z(a, b),
    decreases b,
{
    if b == 0 {
        assert(gcd_z(a, b) == a);
        assert(1 * a + 0 * b == a) by (nonlinear_arith);
    } else {
        lemma_mod_bound(a, b);
        lemma_bezout(b, a % b);
        let (u2, v2) = choose|u: int, v: int| #[trigger] (u * b + v * (a % b)) == gcd_z(b, a % b);
        lemma_fundamental_div_mod(a, b);
        assert(a % b == a - b * (a / b));
        assert(v2 * a + (u2 - v2 * (a / b)) * b == u2 * b + v2 * (a - b * (a / b)))
            by (nonlinear_arith);
        assert(v2 * a + (u2 - v2 * (a / b)) * b == gcd_z(a, b));
    }
}

/// A prime is coprime to every smaller positive residue.
proof fn lemma_prime_coprime(p: int, x: int)
    requires
        is_prime(p),
        1 <= x < p,
    ensures
        gcd_z(p, x) == 1,
{
    lemma_gcd_divides(p, x);
    let g = gcd_z(p, x);
    let qx = choose|q: int| #[trigger] (g * q) == x;
    assert(qx >= 1) by (nonlinear_arith)
        requires
            g >= 1,
            g * qx == x,
            x >= 1,
    ;
    assert(g <= x) by (nonlinear_arith)
        requires
            g >= 1,
            qx >= 1,
            g * qx == x,
    ;
    if g >= 2 {
        assert(divides(g, p));
        let qp = choose|q: int| #[trigger] (g * q) == p;
        lemma_mod_multiples_basic(qp, g);
        assert(qp * g == g * qp) by (nonlinear_arith);
        assert(p % g == 0);
        assert(false);
    }
}

/// Every residue in `[1, p)` has a multiplicative inverse modulo a prime.
proof fn lemma_mod_inverse(p: int, x: int)
    requires
        is_prime(p),
        1 <= x < p,
    ensures
        exists|v: int| in_field(p, v) && #[trigger] mul_z(p, v, x) == 1,
{
    lemma_prime_coprime(p, x);
    lemma_bezout(p, x);
    let (u, v0) = choose|u: int, v: int| #[trigger] (u * p + v * x) == 1;
    let v = v0 % p;
    lemma_mod_bound(v0, p);
    lemma_mul_mod_noop_left(v0, x, p);
    assert(v0 * x == 1 + (-u) * p) by (nonlinear_arith)
        requires
            u * p + v0 * x == 1,
    ;
    lemma_mod_multiples_vanish(-u, 1, p);
    lemma_small_mod(1nat, p as nat);
    assert(mul_z(p, v, x) == 1);
}

/// The residues `1, 2, …, n`.
pub open spec fn upto(n: int) -> Seq<int> {
    Seq::new(n as nat, |i: int| i + 1)
}

/// The residues `a·1, a·2, …, a·n` modulo `p`.
pub open spec fn mults(p: int, a: int, n: int) -> Seq<int> {
    Seq::new(n as nat, |i: int| mul_z(p, a, i + 1))
}

/// The product of a sequence of residues modulo `p`.
pub open spec fn prod_z(p: int, s: Seq<int>) -> int
    decreases s.len(),
{
    if s.len() == 0 {
        1
    } else {
        mul_z(p, s.last(), prod_z(p, s.drop_last()))
    }
}

/// The folding operator behind `prod_z`.
pub open spec fn mul_f(p: int) -> spec_fn(int, int) -> int {
    |x: int, v: int| mul_z(p, x, v)
}

/// Multiplication modulo `p` commutes across the fold.
proof fn lemma_mul_f_commutative(p: int)
    requires
        p >= 2,
    ensures
        commutative_foldr(mul_f(p)),
{
    let f = mul_f(p);
    assert forall|x: int, y: int, v: int| #[trigger] f(x, f(y, v)) == f(y, f(x, v)) by {
        lemma_mul_z_assoc(p, x, y, v);
        lemma_mul_z_comm(p, x, y);
        lemma_mul_z_assoc(p, y, x, v);
    }
}

/// `prod_z` is the right fold of the multiplication operator.
proof fn lemma_prod_is_fold(p: int, s: Seq<int>)
    requires
        p >= 2,
    ensures
        prod_z(p, s) == s.fold_right(mul_f(p), 1int),
    decreases s.len(),
{
    lemma_mul_f_commutative(p);
    if s.len() > 0 {
        lemma_prod_is_fold(p, s.drop_last());
        s.drop_last().lemma_fold_right_commute_one(s.last(), mul_f(p), 1int);
    }
}

/// Sequences with the same multiset of residues have the same product.
proof fn lemma_prod_permutation(p: int, s1: Seq<int>, s2: Seq<int>)
    requires
        p >= 2,
        s1.to_multiset() == s2.to_multiset(),
    ensures
        prod_z(p, s1) == prod_z(p, s2),
{
    lemma_mul_f_commutative(p);
    lemma_prod_is_fold(p, s1);
    lemma_prod_is_fold(p, s2);
    lemma_fold_right_permutation(s1, s2, mul_f(p), 1int);
}

/// The product of `a·1, …, a·n` factors as `a^n` times the product of
/// `1, …, n`.
proof fn lemma_prod_factor(p: int, a: int, n: int)
    requires
        p >= 2,
        in_field(p, a),
        0 <= n,
    ensures
        prod_z(p, mults(p, a, n)) == mul_z(p, pow_z(p, a, n as nat), prod_z(p, upto(n))),
    decreases n,
{
    if n == 0 {
        assert(mults(p, a, 0).len() == 0);
        assert(upto(0).len() == 0);
        lemma_small_mod(1nat, p as nat);
        assert(mul_z(p, 1, 1) == 1);
    } else {
        lemma_prod_factor(p, a, n - 1);
        assert(mults(p, a, n).drop_last() =~= mults(p, a, n - 1));
        assert(upto(n).drop_last() =~= upto(n - 1));
        let an = mul_z(p, a, n);
        let pw = pow_z(p, a, (n - 1) as nat);
        let q = prod_z(p, upto(n - 1));
        assert(prod_z(p, mults(p, a, n)) == mul_z(p, an, mul_z(p, pw, q)));
        assert(prod_z(p, upto(n)) == mul_z(p, n, q));
        assert(pow_z(p, a, n as nat) == mul_z(p, a, pw));
        // shuffle (a·n)·(pw·q) into (a·pw)·(n·q)
        lemma_mul_z_assoc(p, an, pw, q);
        lemma_mul_z_assoc(p, a, n, pw);
        lemma_mul_z_comm(p, n, pw);
        lemma_mul_z_assoc(p, a, pw, n);
        lemma_mul_z_assoc(p, mul_z(p, a, pw), n, q);
        assert(mul_z(p, an, mul_z(p, pw, q)) == mul_z(p, mul_z(p, an, pw), q));
        assert(mul_z(p, mul_z(p, an, pw), q) == mul_z(p, mul_z(p, mul_z(p, a, pw), n), q));
        assert(mul_z(p, mul_z(p, mul_z(p, a, pw), n), q) == mul_z(
            p,
            mul_z(p, a, pw),
            mul_z(p, n, q),
        ));
    }
}

/// With `v` an inverse of `a`, multiplying by `a` and then by `v` gives
/// back any canonical residue.
proof fn lemma_cancel(p: int, a: int, v: int, x: int)
    requires
        p >= 2,
        in_field(p, x),
        mul_z(p, v, a) == 1,
    ensures
        mul_z(p, v, mul_z(p, a, x)) == x,
{
    lemma_mul_z_assoc(p, v, a, x);
    lemma_mul_z_one(p, x);
    lemma_mul_z_comm(p, 1, x);
    lemma_mul_z_comm(p, x, 1);
    lemma_small_mod(x as nat, p as nat);
    assert(mul_z(p, 1, x) == x);
}

/// The residues `a·1, …, a·(p−1)` are exactly the residues `1, …, p−1`,
/// as multisets.
proof fn lemma_mults_permute(p: int, a: int, v: int)
    requires
        is_prime(p),
        in_field(p, a),
        a != 0,
        in_field(p, v),
        mul_z(p, v, a) == 1,
    ensures
        mults(p, a, p - 1).to_multiset() == upto(p - 1).to_multiset(),
{
    broadcast use vstd::seq_lib::group_to_multiset_ensures;

    let n = p - 1;
    let s1 = upto(n);
    let s2 = mults(p, a, n);
    // every listed multiple is a non-zero canonical residue
    assert forall|i: int| 0 <= i < n implies 1 <= #[trigger] s2[i] < p by {
        lemma_mul_z_wf(p, a, i + 1);
        if s2[i] == 0 {
            lemma_cancel(p, a, v, i + 1);
            lemma_mul_z_zero(p, v);
            assert(mul_z(p, v, 0) == 0);
        }
    }
    // distinct indices give distinct multiples
    assert forall|i: int, j: int| 0 <= i < n && 0 <= j < n && i != j implies s2[i] != s2[j] by {
        if s2[i] == s2[j] {
            lemma_cancel(p, a, v, i + 1);
            lemma_cancel(p, a, v, j + 1);
        }
    }
    assert(s2.no_duplicates());
    assert(s1.no_duplicates());
    s2.lemma_multiset_has_no_duplicates();
    s1.lemma_multiset_has_no_duplicates();
    // every non-zero canonical residue is hit: by the index v·x
    assert forall|x: int| 1 <= x < p implies s2.contains(x) by {
        let w = mul_z(p, v, x);
        lemma_mul_z_wf(p, v, x);
        // w != 0, else x = a·w would be 0
        lemma_mul_z_comm(p, v, a);
        lemma_mul_z_assoc(p, a, v, x);
        lemma_mul_z_one(p, x);
        lemma_mul_z_comm(p, 1, x);
        lemma_small_mod(x as nat, p as nat);
        assert(mul_z(p, a, w) == x);
        if w == 0 {
            lemma_mul_z_zero(p, a);
            assert(x == 0);
        }
        assert(s2[w - 1] == x);
    }
    assert forall|x: int| true implies s1.to_multiset().count(x) == s2.to_multiset().count(x) by {
        if 1 <= x < p {
            assert(s1[x - 1] == x);
            assert(s1.contains(x));
            assert(s2.contains(x));
            assert(s1.to_multiset().count(x) == 1);
            assert(s2.to_multiset().count(x) == 1);
        } else {
            if s1.contains(x) {
                let i = choose|i: int| 0 <= i < s1.len() && s1[i] == x;
                assert(false);
            }
            if s2.contains(x) {
                let i = choose|i: int| 0 <= i < s2.len() && s2[i] == x;
                assert(false);
            }
            assert(s1.to_multiset().count(x) == 0);
            assert(s2.to_multiset().count(x) == 0);
        }
    }
    assert(s1.to_multiset() =~= s2.to_multiset());
}

/// The product of two non-zero canonical residues modulo a prime is
/// non-zero: a prime field has no zero divisors.
proof fn lemma_mul_nonzero(p: int, x: int, y: int)
    requires
        is_prime(p),
        1 <= x < p,
        1 <= y < p,
    ensures
        1 <= mul_z(p, x, y) < p,
{
    lemma_mul_z_wf(p, x, y);
    if mul_z(p, x, y) == 0 {
        lemma_mod_inverse(p, x);
        let v = choose|v: int| in_field(p, v) && #[trigger] mul_z(p, v, x) == 1;
        lemma_cancel(p, x, v, y);
        lemma_mul_z_zero(p, v);
        assert(y == 0);
    }
}

/// The factorial-like product of `1, …, n` is a non-zero canonical
/// residue modulo a prime larger than `n`.
proof fn lemma_prod_upto_nonzero(p: int, n: int)
    requires
        is_prime(p),
        0 <= n < p,
    ensures
        1 <= prod_z(p, upto(n)) < p,
    decreases n,
{
    if n == 0 {
        assert(upto(0).len() == 0);
    } else {
        lemma_prod_upto_nonzero(p, n - 1);
        assert(upto(n).drop_last() =~= upto(n - 1));
        assert(upto(n).last() == n);
        lemma_mul_nonzero(p, n, prod_z(p, upto(n - 1)));
    }
}

/// Fermat's little theorem: modulo a prime `p`, every non-zero canonical
/// residue raised to `p − 1` is the multiplicative identity.
pub proof fn lemma_fermat(p: int, a: int)
    requires
        is_prime(p),
        in_field(p, a),
        a != 0,
    ensures
        pow_z(p, a, (p - 1) as nat) == 1,
{
    lemma_mod_inverse(p, a);
    let v = choose|v: int| in_field(p, v) && #[trigger] mul_z(p, v, a) == 1;
    lemma_mults_permute(p, a, v);
    lemma_prod_permutation(p, mults(p, a, p - 1), upto(p - 1));
    lemma_prod_factor(p, a, p - 1);
    let fact = prod_z(p, upto(p - 1));
    let pw = pow_z(p, a, (p - 1) as nat);
    assert(mul_z(p, pw, fact) == fact);
    lemma_prod_upto_nonzero(p, p - 1);
    lemma_mod_inverse(p, fact);
    let w = choose|w: int| in_field(p, w) && #[trigger] mul_z(p, w, fact) == 1;
    // cancel the factorial on both sides
    lemma_mul_z_comm(p, pw, fact);
    lemma_cancel(p, fact, w, pw);
    lemma_pow_z_wf(p, a, (p - 1) as nat);
    assert(mul_z(p, w, mul_z(p, fact, pw)) == pw);
    assert(mul_z(p, w, fact) == 1);
}

/// The prime-field inverse law: for prime `p` and non-zero canonical `a`,
/// the Fermat-style inverse `a^(p−2)` is a true multiplicative inverse.
pub proof fn lemma_inv_z_correct(p: int, a: int)
    requires
        is_prime(p),
        in_field(p, a),
        a != 0,
    ensures
        mul_z(p, a, inv_z(p, a)) == 1,
{
    lemma_sqm_z_pow(p, a, (p - 2) as nat);
    assert(inv_z(p, a) == pow_z(p, a, (p - 2) as nat));
    assert(pow_z(p, a, (p - 1) as nat) == mul_z(p, a, pow_z(p, a, (p - 2) as nat)));
    lemma_fermat(p, a);
}

} // verus!
