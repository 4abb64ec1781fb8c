//! The forward and the backward transform undo each other.

use crate::modulus::{as_ints, reduced};
use crate::ntt::{is_negacyclic_root, poly_eval, root_from, NttOperator};
use vstd::arithmetic::div_mod::*;
use vstd::arithmetic::mul::*;
use vstd::arithmetic::power::*;
use vstd::arithmetic::power2::is_pow2;
use vstd::prelude::*;

verus! {

/// The value at `y` of the polynomial with the integer coefficients `s`.
pub open spec fn eval_int(s: Seq<int>, y: int) -> int
    decreases s.len(),
{
    if s.len() == 0 {
        0
    } else {
        eval_int(s.drop_last(), y) + s.last() * pow(y, (s.len() - 1) as nat)
    }
}

/// The sum of the first `n` powers of `z`.
pub open spec fn geometric(z: int, n: nat) -> int {
    eval_int(Seq::new(n, |k: int| 1int), z)
}

/// The first `n` powers of `s`.
pub open spec fn powers(s: int, n: nat) -> Seq<int> {
    Seq::new(n, |k: int| pow(s, k as nat))
}

/// The value of a polynomial with word coefficients is that of the same
/// coefficients as integers.
pub proof fn lemma_eval_as_ints(a: Seq<u64>, y: int)
    ensures
        poly_eval(a, y) == eval_int(as_ints(a), y),
    decreases a.len(),
{
    if a.len() > 0 {
        lemma_eval_as_ints(a.drop_last(), y);
        assert(as_ints(a).drop_last() =~= as_ints(a.drop_last()));
    }
}

/// Congruent points give congruent values.
pub proof fn lemma_eval_int_point(s: Seq<int>, x: int, y: int, q: int)
    requires
        q > 0,
        x % q == y % q,
    ensures
        eval_int(s, x) % q == eval_int(s, y) % q,
    decreases s.len(),
{
    if s.len() > 0 {
        let e = (s.len() - 1) as nat;
        lemma_eval_int_point(s.drop_last(), x, y, q);
        lemma_pow_mod_noop(x, e, q);
        lemma_pow_mod_noop(y, e, q);
        lemma_mul_mod_noop_general(s.last(), pow(x, e), q);
        lemma_mul_mod_noop_general(s.last(), pow(y, e), q);
        lemma_add_mod_noop(eval_int(s.drop_last(), x), s.last() * pow(x, e), q);
        lemma_add_mod_noop(eval_int(s.drop_last(), y), s.last() * pow(y, e), q);
    }
}

/// The value is linear in the coefficients, modulo `q`: where every
/// coefficient of `u` is that of `v` plus `c` times that of `w`, so is the value.
pub proof fn lemma_eval_int_linear(u: Seq<int>, v: Seq<int>, w: Seq<int>, c: int, y: int, q: int)
    requires
        q > 0,
        u.len() == v.len(),
        u.len() == w.len(),
        forall|k: int| 0 <= k < u.len() ==> (#[trigger] u[k]) % q == (v[k] + c * w[k]) % q,
    ensures
        eval_int(u, y) % q == (eval_int(v, y) + c * eval_int(w, y)) % q,
    decreases u.len(),
{
    if u.len() == 0 {
        assert(c * 0 == 0);
    } else {
        let e = (u.len() - 1) as nat;
        let p = pow(y, e);
        lemma_eval_int_linear(u.drop_last(), v.drop_last(), w.drop_last(), c, y, q);
        let eu = eval_int(u.drop_last(), y);
        let ev = eval_int(v.drop_last(), y);
        let ew = eval_int(w.drop_last(), y);
        // the last term
        assert(u.last() % q == (v.last() + c * w.last()) % q);
        lemma_mul_mod_noop_general(u.last(), p, q);
        lemma_mul_mod_noop_general(v.last() + c * w.last(), p, q);
        assert((u.last() * p) % q == ((v.last() + c * w.last()) * p) % q);
        lemma_add_mod_noop(eu, u.last() * p, q);
        lemma_add_mod_noop(ev + c * ew, (v.last() + c * w.last()) * p, q);
        assert((ev + c * ew) + (v.last() + c * w.last()) * p == (ev + v.last() * p) + c * (ew
            + w.last() * p)) by (nonlinear_arith);
    }
}

/// The value of a sequence followed by another.
pub proof fn lemma_eval_int_concat(a: Seq<int>, b: Seq<int>, y: int)
    ensures
        eval_int(a + b, y) == eval_int(a, y) + pow(y, a.len()) * eval_int(b, y),
    decreases b.len(),
{
    if b.len() == 0 {
        assert(a + b =~= a);
        assert(pow(y, a.len()) * 0 == 0);
    } else {
        let e = (b.len() - 1) as nat;
        assert((a + b).drop_last() =~= a + b.drop_last());
        lemma_eval_int_concat(a, b.drop_last(), y);
        lemma_pow_adds(y, a.len(), e);
        assert((a + b).last() == b.last());
        assert(pow(y, a.len()) * (eval_int(b.drop_last(), y) + b.last() * pow(y, e)) == pow(
            y,
            a.len(),
        ) * eval_int(b.drop_last(), y) + b.last() * (pow(y, a.len()) * pow(y, e)))
            by (nonlinear_arith);
    }
}

/// The value at `y` of the powers of `s` is the sum of the powers of `s * y`.
pub proof fn lemma_eval_powers(s: int, y: int, n: nat)
    ensures
        eval_int(powers(s, n), y) == geometric(s * y, n),
    decreases n,
{
    if n > 0 {
        let e = (n - 1) as nat;
        assert(powers(s, n).drop_last() =~= powers(s, e));
        assert(Seq::new(n, |k: int| 1int).drop_last() =~= Seq::new(e, |k: int| 1int));
        lemma_eval_powers(s, y, e);
        lemma_pow_distributes(s, y, e);
    }
}

/// The sum of the first `2h` powers is `1 + z^h` times that of the first `h`.
pub proof fn lemma_geometric_double(z: int, h: nat)
    ensures
        geometric(z, 2 * h) == (1 + pow(z, h)) * geometric(z, h),
{
    let a = Seq::new(h, |k: int| 1int);
    assert(Seq::new(2 * h, |k: int| 1int) =~= a + a);
    lemma_eval_int_concat(a, a, z);
    assert(geometric(z, h) + pow(z, h) * geometric(z, h) == (1 + pow(z, h)) * geometric(z, h))
        by (nonlinear_arith);
}

/// The sum of `n` ones.
pub proof fn lemma_geometric_one(n: nat)
    ensures
        geometric(1, n) == n,
    decreases n,
{
    if n > 0 {
        assert(Seq::new(n, |k: int| 1int).drop_last() =~= Seq::new((n - 1) as nat, |k: int| 1int));
        lemma_geometric_one((n - 1) as nat);
        lemma1_pow((n - 1) as nat);
    }
}

/// Powers of minus one: one for an even exponent, minus one for an odd one.
pub proof fn lemma_pow_minus_one(q: int, d: nat)
    requires
        q >= 2,
    ensures
        pow(q - 1, d) % q == if d % 2 == 0 {
            1
        } else {
            q - 1
        },
    decreases d,
{
    if d == 0 {
        lemma_pow0(q - 1);
        lemma_small_mod(1, q as nat);
    } else {
        lemma_pow_minus_one(q, (d - 1) as nat);
        lemma_pow_adds(q - 1, (d - 1) as nat, 1);
        lemma_pow1(q - 1);
        let r = pow(q - 1, (d - 1) as nat);
        lemma_mul_mod_noop_general(r, q - 1, q);
        lemma_small_mod((q - 1) as nat, q as nat);
        lemma_small_mod(1, q as nat);
        if (d - 1) % 2 == 0 {
            assert(1 * (q - 1) == q - 1);
        } else {
            assert((q - 1) * (q - 1) == q * (q - 2) + 1) by (nonlinear_arith);
            lemma_mod_multiples_vanish(q - 2, 1, q);
        }
    }
}

/// The sum of the first `n` powers of `w^d` vanishes modulo `q` when `w` to
/// half of `n` is minus one and `d` lies strictly between zero and `n`.
pub proof fn lemma_geometric_zero(w: int, d: nat, n: nat, q: int)
    requires
        q >= 2,
        is_pow2(n as int),
        n >= 2,
        is_negacyclic_root(w, n / 2, q),
        0 < d < n,
    ensures
        geometric(pow(w, d), n) % q == 0,
    decreases n,
{
    reveal(is_pow2);
    let h = n / 2;
    let z = pow(w, d);
    lemma_geometric_double(z, h);
    // z^h is (w^h)^d, a power of minus one
    lemma_pow_multiplies(w, d, h);
    lemma_pow_multiplies(w, h, d);
    lemma_mul_is_commutative(d as int, h as int);
    assert(pow(z, h) == pow(pow(w, h), d));
    lemma_pow_mod_noop(pow(w, h), d, q);
    lemma_pow_minus_one(q, d);
    let g = geometric(z, h);
    if d % 2 == 1 {
        assert(pow(z, h) % q == q - 1);
        lemma_add_mod_noop(1, pow(z, h), q);
        lemma_small_mod(1, q as nat);
        lemma_mod_self_0(q);
        assert((1 + pow(z, h)) % q == 0);
        lemma_mul_mod_noop_general(1 + pow(z, h), g, q);
        assert(0 * (g % q) == 0);
        lemma_small_mod(0, q as nat);
    } else {
        assert(d >= 2);
        assert(h >= 2);
        assert(is_pow2(h as int));
        assert(h % 2 == 0);
        let w2 = w * w;
        let d2 = d / 2;
        // w^d is (w^2)^(d/2), and w^2 to half of h is w^h
        lemma_pow_distributes(w, w, d2);
        lemma_pow_adds(w, d2, d2);
        assert(pow(w2, d2) == z);
        lemma_pow_distributes(w, w, h / 2);
        lemma_pow_adds(w, h / 2, h / 2);
        assert(pow(w2, h / 2) == pow(w, h));
        lemma_geometric_zero(w2, d2, h, q);
        lemma_mul_mod_noop_general(1 + pow(z, h), g, q);
        assert(((1 + pow(z, h)) % q) * 0 == 0);
        lemma_small_mod(0, q as nat);
    }
}

/// Powers of a number and of its inverse cancel.
pub proof fn lemma_cancel(psi: int, psi_inv: int, a: nat, b: nat, q: int)
    requires
        q >= 2,
        (psi * psi_inv) % q == 1,
    ensures
        (pow(psi, a) * pow(psi_inv, b)) % q == (if a >= b {
            pow(psi, (a - b) as nat)
        } else {
            pow(psi_inv, (b - a) as nat)
        }) % q,
    decreases a + b,
{
    if a == 0 {
        lemma_pow0(psi);
        assert(1 * pow(psi_inv, b) == pow(psi_inv, b));
        if b == 0 {
            lemma_pow0(psi_inv);
        }
    } else if b == 0 {
        lemma_pow0(psi_inv);
        assert(pow(psi, a) * 1 == pow(psi, a));
    } else {
        let a1 = (a - 1) as nat;
        let b1 = (b - 1) as nat;
        lemma_cancel(psi, psi_inv, a1, b1, q);
        lemma_pow_adds(psi, a1, 1);
        lemma_pow_adds(psi_inv, b1, 1);
        lemma_pow1(psi);
        lemma_pow1(psi_inv);
        let x = pow(psi, a1);
        let y = pow(psi_inv, b1);
        assert((x * psi) * (y * psi_inv) == (x * y) * (psi * psi_inv)) by (nonlinear_arith);
        lemma_mul_mod_noop_general(x * y, psi * psi_inv, q);
        assert(((x * y) % q) * 1 == (x * y) % q);
        lemma_mod_twice(x * y, q);
    }
}

/// The sum of the first `n` powers of `psi^a * psi_inv^b`, where `a` and
/// `b` differ by an even number below `2n`: `n` when they are equal, zero
/// otherwise.
pub proof fn lemma_twisted_sum(psi: int, psi_inv: int, a: nat, b: nat, n: nat, q: int)
    requires
        q >= 2,
        is_pow2(n as int),
        is_negacyclic_root(psi, n, q),
        is_negacyclic_root(psi_inv, n, q),
        (psi * psi_inv) % q == 1,
        (a + b) % 2 == 0,
        a < b + 2 * n,
        b < a + 2 * n,
    ensures
        geometric(pow(psi, a) * pow(psi_inv, b), n) % q == if a == b {
            (n as int) % q
        } else {
            0
        },
{
    reveal(is_pow2);
    let z = pow(psi, a) * pow(psi_inv, b);
    lemma_cancel(psi, psi_inv, a, b, q);
    let ones = Seq::new(n, |k: int| 1int);
    if a == b {
        lemma_pow0(psi);
        lemma_small_mod(1, q as nat);
        lemma_eval_int_point(ones, z, 1, q);
        lemma_geometric_one(n);
    } else if a > b {
        let d = ((a - b) / 2) as nat;
        assert(a - b == 2 * d);
        lemma_pow_distributes(psi, psi, d);
        lemma_pow_adds(psi, d, d);
        assert(pow(psi * psi, d) == pow(psi, (a - b) as nat));
        lemma_eval_int_point(ones, z, pow(psi * psi, d), q);
        assert(n >= 2);
        lemma_pow_distributes(psi, psi, n / 2);
        lemma_pow_adds(psi, n / 2, n / 2);
        lemma_geometric_zero(psi * psi, d, n, q);
    } else {
        let d = ((b - a) / 2) as nat;
        assert(b - a == 2 * d);
        lemma_pow_distributes(psi_inv, psi_inv, d);
        lemma_pow_adds(psi_inv, d, d);
        assert(pow(psi_inv * psi_inv, d) == pow(psi_inv, (b - a) as nat));
        lemma_eval_int_point(ones, z, pow(psi_inv * psi_inv, d), q);
        assert(n >= 2);
        lemma_pow_distributes(psi_inv, psi_inv, n / 2);
        lemma_pow_adds(psi_inv, n / 2, n / 2);
        lemma_geometric_zero(psi_inv * psi_inv, d, n, q);
    }
}

/// The values of the coefficients `a` at the first `n` odd powers of `psi`.
pub open spec fn spectrum(a: Seq<u64>, psi: int, q: int, n: nat) -> Seq<int> {
    Seq::new(n, |k: int| poly_eval(a, pow(psi, (2 * k + 1) as nat)) % q)
}

/// The coefficients that the backward transform gives for the first values
/// `b`, at `n` positions.
pub open spec fn inverse_spectrum(b: Seq<u64>, psi_inv: int, n_inv: int, q: int, n: nat) -> Seq<
    int,
> {
    Seq::new(
        n,
        |j: int|
            (n_inv * pow(psi_inv, j as nat) * poly_eval(b, pow(psi_inv, (2 * j) as nat))) % q,
    )
}

/// The sum that the backward transform forms over the spectrum of `a` picks
/// out coefficient `j`, times `n * psi^j`.
pub proof fn lemma_spectrum_sum(a: Seq<u64>, psi: int, psi_inv: int, n: nat, q: int, j: int)
    requires
        q >= 2,
        is_pow2(n as int),
        is_negacyclic_root(psi, n, q),
        is_negacyclic_root(psi_inv, n, q),
        (psi * psi_inv) % q == 1,
        a.len() <= n,
        0 <= j < n,
    ensures
        eval_int(spectrum(a, psi, q, n), pow(psi_inv, (2 * j) as nat)) % q == (if j < a.len() {
            n * pow(psi, j as nat) * a[j]
        } else {
            0
        }) % q,
    decreases a.len(),
{
    let y = pow(psi_inv, (2 * j) as nat);
    if a.len() == 0 {
        let zero = Seq::new(n, |k: int| 0int);
        let u = spectrum(a, psi, q, n);
        assert forall|k: int| 0 <= k < n implies (#[trigger] u[k]) % q == (zero[k] + 0 * zero[k])
            % q by {
            lemma_small_mod(0, q as nat);
        }
        lemma_eval_int_linear(u, zero, zero, 0, y, q);
        lemma_eval_zero(n, y);
        assert(0 * eval_int(zero, y) == 0);
    } else {
        let m = (a.len() - 1) as nat;
        let b = a.drop_last();
        let c = a.last() as int;
        lemma_spectrum_sum(b, psi, psi_inv, n, q, j);
        let u = spectrum(a, psi, q, n);
        let v = spectrum(b, psi, q, n);
        let s = pow(psi, 2 * m);
        let w = powers(s, n);
        let cc = c * pow(psi, m);
        assert forall|k: int| 0 <= k < n implies (#[trigger] u[k]) % q == (v[k] + cc * w[k]) % q by {
            let x = pow(psi, (2 * k + 1) as nat);
            // x^m is psi^m times (psi^(2m))^k
            lemma_pow_multiplies(psi, (2 * k + 1) as nat, m);
            lemma_pow_multiplies(psi, 2 * m, k as nat);
            assert((2 * k + 1) * m == m + (2 * m) * k) by (nonlinear_arith);
            lemma_pow_adds(psi, m, ((2 * m) * k) as nat);
            assert(pow(x, m) == pow(psi, m) * pow(s, k as nat));
            assert(c * (pow(psi, m) * pow(s, k as nat)) == cc * pow(s, k as nat))
                by (nonlinear_arith)
                requires
                    cc == c * pow(psi, m),
            ;
            assert(poly_eval(a, x) == poly_eval(b, x) + cc * w[k]);
            lemma_mod_twice(poly_eval(a, x), q);
            lemma_add_mod_noop(poly_eval(b, x), cc * w[k], q);
            lemma_add_mod_noop(v[k], cc * w[k], q);
            lemma_mod_twice(poly_eval(b, x), q);
        }
        lemma_eval_int_linear(u, v, w, cc, y, q);
        lemma_eval_powers(s, y, n);
        lemma_twisted_sum(psi, psi_inv, 2 * m, (2 * j) as nat, n, q);
        let geo = geometric(s * y, n);
        let ev = eval_int(v, y);
        lemma_add_mod_noop(ev, cc * geo, q);
        lemma_mul_mod_noop_general(cc, geo, q);
        if j == m {
            lemma_mul_mod_noop_general(cc, n as int, q);
            lemma_small_mod(0, q as nat);
            assert(cc * n == n * pow(psi, j as nat) * a[j]) by (nonlinear_arith)
                requires
                    cc == c * pow(psi, m),
                    j == m,
                    c == a[j],
            ;
            lemma_add_mod_noop(0, cc * n, q);
        } else {
            assert(cc * 0 == 0);
            lemma_small_mod(0, q as nat);
            if j < m {
                assert(b[j] == a[j]);
            }
            lemma_add_mod_noop(ev, 0, q);
        }
    }
}

/// The zero polynomial has the value zero.
pub proof fn lemma_eval_zero(n: nat, y: int)
    ensures
        eval_int(Seq::new(n, |k: int| 0int), y) == 0,
    decreases n,
{
    if n > 0 {
        assert(Seq::new(n, |k: int| 0int).drop_last() =~= Seq::new((n - 1) as nat, |k: int| 0int));
        lemma_eval_zero((n - 1) as nat, y);
        assert(0 * pow(y, (n - 1) as nat) == 0);
    }
}

/// The sum that the forward transform forms over the inverse spectrum of
/// `b` picks out value `k`.
pub proof fn lemma_inverse_spectrum_sum(
    b: Seq<u64>,
    psi: int,
    psi_inv: int,
    n_inv: int,
    n: nat,
    q: int,
    k: int,
)
    requires
        q >= 2,
        is_pow2(n as int),
        is_negacyclic_root(psi, n, q),
        is_negacyclic_root(psi_inv, n, q),
        (psi * psi_inv) % q == 1,
        (n * n_inv) % q == 1,
        b.len() <= n,
        0 <= k < n,
    ensures
        eval_int(inverse_spectrum(b, psi_inv, n_inv, q, n), pow(psi, (2 * k + 1) as nat)) % q == (
        if k < b.len() {
            b[k] as int
        } else {
            0
        }) % q,
    decreases b.len(),
{
    let x = pow(psi, (2 * k + 1) as nat);
    if b.len() == 0 {
        let zero = Seq::new(n, |i: int| 0int);
        let u = inverse_spectrum(b, psi_inv, n_inv, q, n);
        assert forall|i: int| 0 <= i < n implies (#[trigger] u[i]) % q == (zero[i] + 0 * zero[i])
            % q by {
            assert(n_inv * pow(psi_inv, i as nat) * 0 == 0);
            lemma_small_mod(0, q as nat);
        }
        lemma_eval_int_linear(u, zero, zero, 0, x, q);
        lemma_eval_zero(n, x);
        assert(0 * eval_int(zero, x) == 0);
    } else {
        let m = (b.len() - 1) as nat;
        let rest = b.drop_last();
        let c = b.last() as int;
        lemma_inverse_spectrum_sum(rest, psi, psi_inv, n_inv, n, q, k);
        let u = inverse_spectrum(b, psi_inv, n_inv, q, n);
        let v = inverse_spectrum(rest, psi_inv, n_inv, q, n);
        let s = pow(psi_inv, 2 * m + 1);
        let w = powers(s, n);
        let cc = c * n_inv;
        assert forall|i: int| 0 <= i < n implies (#[trigger] u[i]) % q == (v[i] + cc * w[i]) % q by {
            let y = pow(psi_inv, (2 * i) as nat);
            let tw = n_inv * pow(psi_inv, i as nat);
            // psi_inv^i * y^m is (psi_inv^(2m+1))^i
            lemma_pow_multiplies(psi_inv, (2 * i) as nat, m);
            lemma_pow_multiplies(psi_inv, 2 * m + 1, i as nat);
            assert((2 * m + 1) * i == i + (2 * i) * m) by (nonlinear_arith);
            lemma_pow_adds(psi_inv, i as nat, ((2 * i) * m) as nat);
            assert(pow(psi_inv, i as nat) * pow(y, m) == pow(s, i as nat));
            assert(poly_eval(b, y) == poly_eval(rest, y) + c * pow(y, m));
            assert(tw * (poly_eval(rest, y) + c * pow(y, m)) == tw * poly_eval(rest, y) + cc * (
            pow(psi_inv, i as nat) * pow(y, m))) by (nonlinear_arith)
                requires
                    tw == n_inv * pow(psi_inv, i as nat),
                    cc == c * n_inv,
            ;
            lemma_mod_twice(tw * poly_eval(b, y), q);
            lemma_add_mod_noop(tw * poly_eval(rest, y), cc * w[i], q);
            lemma_add_mod_noop(v[i], cc * w[i], q);
            lemma_mod_twice(tw * poly_eval(rest, y), q);
        }
        lemma_eval_int_linear(u, v, w, cc, x, q);
        lemma_eval_powers(s, x, n);
        lemma_twisted_sum(psi, psi_inv, (2 * k + 1) as nat, 2 * m + 1, n, q);
        lemma_mul_is_commutative(s, x);
        let geo = geometric(s * x, n);
        let ev = eval_int(v, x);
        lemma_add_mod_noop(ev, cc * geo, q);
        lemma_mul_mod_noop_general(cc, geo, q);
        if k == m {
            lemma_mul_mod_noop_general(cc, n as int, q);
            lemma_small_mod(0, q as nat);
            assert(cc * n == c * (n * n_inv)) by (nonlinear_arith)
                requires
                    cc == c * n_inv,
            ;
            lemma_mul_mod_noop_general(c, n * n_inv, q);
            assert(c * 1 == c);
            lemma_add_mod_noop(0, cc * n, q);
        } else {
            assert(cc * 0 == 0);
            lemma_small_mod(0, q as nat);
            if k < m {
                assert(rest[k] == b[k]);
            }
            lemma_add_mod_noop(ev, 0, q);
        }
    }
}

/// The backward transform undoes the forward transform.
pub proof fn lemma_backward_forward(op: NttOperator, a: Seq<u64>)
    requires
        op.wf(),
        a.len() == op.n(),
        reduced(a, op.q()),
    ensures
        op.backward_of(op.forward_of(a)) == a,
{
    let q = op.q();
    let n = op.n();
    let psi = op.root();
    let psi_inv = op.root_inv();
    let n_inv = op.length_inv();
    let f = op.forward_of(a);
    let r = op.backward_of(f);
    assert(as_ints(f) =~= spectrum(a, psi, q, n)) by {
        assert forall|k: int| 0 <= k < n implies as_ints(f)[k] == spectrum(a, psi, q, n)[k] by {
            lemma_mod_bound(poly_eval(a, pow(psi, (2 * k + 1) as nat)), q);
        }
    }
    assert forall|j: int| 0 <= j < n implies r[j] == a[j] by {
        let y = pow(psi_inv, (2 * j) as nat);
        let tw = n_inv * pow(psi_inv, j as nat);
        lemma_eval_as_ints(f, y);
        lemma_spectrum_sum(a, psi, psi_inv, n, q, j);
        let e = poly_eval(f, y);
        let picked = n * pow(psi, j as nat) * a[j];
        assert(e % q == picked % q);
        lemma_mul_mod_noop_general(tw, e, q);
        lemma_mul_mod_noop_general(tw, picked, q);
        assert((tw * e) % q == (tw * picked) % q);
        // n_inv * n is one, and so is psi_inv^j * psi^j
        lemma_cancel(psi, psi_inv, j as nat, j as nat, q);
        lemma_pow0(psi);
        lemma_small_mod(1, q as nat);
        let pp = pow(psi, j as nat) * pow(psi_inv, j as nat);
        assert(tw * picked == ((n * n_inv) * pp) * a[j]) by (nonlinear_arith)
            requires
                tw == n_inv * pow(psi_inv, j as nat),
                picked == n * pow(psi, j as nat) * a[j],
                pp == pow(psi, j as nat) * pow(psi_inv, j as nat),
        ;
        lemma_mul_mod_noop_general(n * n_inv, pp, q);
        assert((((n * n_inv) * pp)) % q == 1);
        lemma_mul_mod_noop_general((n * n_inv) * pp, a[j] as int, q);
        assert(1 * (a[j] as int % q) == a[j] as int % q);
        lemma_mod_twice(a[j] as int, q);
        lemma_small_mod(a[j] as nat, q as nat);
    }
    assert(r =~= a);
}

/// The forward transform undoes the backward transform.
pub proof fn lemma_forward_backward(op: NttOperator, b: Seq<u64>)
    requires
        op.wf(),
        b.len() == op.n(),
        reduced(b, op.q()),
    ensures
        op.forward_of(op.backward_of(b)) == b,
{
    let q = op.q();
    let n = op.n();
    let psi = op.root();
    let psi_inv = op.root_inv();
    let n_inv = op.length_inv();
    let c = op.backward_of(b);
    let r = op.forward_of(c);
    assert(as_ints(c) =~= inverse_spectrum(b, psi_inv, n_inv, q, n)) by {
        assert forall|j: int| 0 <= j < n implies as_ints(c)[j] == inverse_spectrum(
            b,
            psi_inv,
            n_inv,
            q,
            n,
        )[j] by {
            lemma_mod_bound(
                n_inv * pow(psi_inv, j as nat) * poly_eval(b, pow(psi_inv, (2 * j) as nat)),
                q,
            );
        }
    }
    assert forall|k: int| 0 <= k < n implies r[k] == b[k] by {
        let x = pow(psi, (2 * k + 1) as nat);
        lemma_eval_as_ints(c, x);
        lemma_inverse_spectrum_sum(b, psi, psi_inv, n_inv, n, q, k);
        lemma_small_mod(b[k] as nat, q as nat);
    }
    assert(r =~= b);
}

/// The coefficients `s` rotated by one place, the one that leaves at the top
/// coming back negated at the bottom: the coefficients of `x * s(x)` modulo
/// `x^n + 1`.
pub open spec fn rotated(s: Seq<int>) -> Seq<int> {
    Seq::new(
        s.len(),
        |k: int|
            if k == 0 {
                -s[s.len() - 1]
            } else {
                s[k - 1]
            },
    )
}

/// The coefficients `s` rotated by `m` places.
pub open spec fn rotated_by(s: Seq<int>, m: nat) -> Seq<int>
    decreases m,
{
    if m == 0 {
        s
    } else {
        rotated(rotated_by(s, (m - 1) as nat))
    }
}

/// The negacyclic product of the first `upto` coefficients of `a` with `b`:
/// the sum of `a[m]` times `b` rotated by `m` places.
pub open spec fn convolution(a: Seq<int>, b: Seq<int>, upto: nat) -> Seq<int>
    decreases upto,
{
    if upto == 0 {
        Seq::new(b.len(), |k: int| 0int)
    } else {
        Seq::new(
            b.len(),
            |k: int|
                convolution(a, b, (upto - 1) as nat)[k] + a[upto - 1] * rotated_by(
                    b,
                    (upto - 1) as nat,
                )[k],
        )
    }
}

/// Every entry of `s` lies within `bound` of zero.
pub open spec fn within(s: Seq<int>, bound: int) -> bool {
    forall|k: int| 0 <= k < s.len() ==> -bound <= (#[trigger] s[k]) <= bound
}

/// Rotating keeps the length and the bound of the entries.
pub proof fn lemma_rotated_by(s: Seq<int>, m: nat, bound: int)
    requires
        within(s, bound),
    ensures
        rotated_by(s, m).len() == s.len(),
        within(rotated_by(s, m), bound),
    decreases m,
{
    if m > 0 {
        lemma_rotated_by(s, (m - 1) as nat, bound);
        let before = rotated_by(s, (m - 1) as nat);
        assert forall|k: int| 0 <= k < rotated(before).len() implies -bound <= (#[trigger] rotated(
            before,
        )[k]) <= bound by {
            if k == 0 {
                assert(-bound <= before[before.len() - 1] <= bound);
            } else {
                assert(-bound <= before[k - 1] <= bound);
            }
        }
    }
}

/// The entries of a negacyclic product lie within the number of terms times
/// the bounds of the factors.
pub proof fn lemma_convolution_bound(a: Seq<int>, b: Seq<int>, upto: nat, bound_a: int, bound_b: int)
    requires
        upto <= a.len(),
        within(a, bound_a),
        within(b, bound_b),
        bound_a >= 0,
        bound_b >= 0,
    ensures
        convolution(a, b, upto).len() == b.len(),
        within(convolution(a, b, upto), upto * (bound_a * bound_b)),
    decreases upto,
{
    if upto == 0 {
        assert(0 * (bound_a * bound_b) == 0);
    } else {
        let u = (upto - 1) as nat;
        lemma_convolution_bound(a, b, u, bound_a, bound_b);
        lemma_rotated_by(b, u, bound_b);
        let c = convolution(a, b, upto);
        let before = convolution(a, b, u);
        let rot = rotated_by(b, u);
        assert(upto * (bound_a * bound_b) == u * (bound_a * bound_b) + bound_a * bound_b)
            by (nonlinear_arith)
            requires
                upto == u + 1,
        ;
        assert forall|k: int| 0 <= k < c.len() implies -(upto * (bound_a * bound_b)) <= (
        #[trigger] c[k]) <= upto * (bound_a * bound_b) by {
            assert(-bound_a <= a[u as int] <= bound_a);
            assert(-bound_b <= rot[k] <= bound_b);
            assert(-(bound_a * bound_b) <= a[u as int] * rot[k] <= bound_a * bound_b)
                by (nonlinear_arith)
                requires
                    -bound_a <= a[u as int] <= bound_a,
                    -bound_b <= rot[k] <= bound_b,
            ;
            assert(-(u * (bound_a * bound_b)) <= before[k] <= u * (bound_a * bound_b));
        }
    }
}

/// At a point whose power `n` is minus one, `x` times the value of `s` is
/// the value of `s` rotated by one place.
pub proof fn lemma_eval_rotated(s: Seq<int>, x: int, q: int)
    requires
        q >= 2,
        s.len() >= 1,
        pow(x, s.len()) % q == q - 1,
    ensures
        (x * eval_int(s, x)) % q == eval_int(rotated(s), x) % q,
{
    let n = s.len();
    let top = s[n - 1];
    let low = s.drop_last();
    let first = seq![-top];
    assert(rotated(s) =~= first + low);
    lemma_eval_int_concat(first, low, x);
    assert(first.drop_last().len() == 0);
    assert(eval_int(first.drop_last(), x) == 0);
    lemma_pow0(x);
    lemma_pow1(x);
    assert(eval_int(first, x) == (-top) * 1);
    assert(eval_int(rotated(s), x) == -top + x * eval_int(low, x));
    // x * s(x) is x * low(x) + top * x^n
    lemma_pow_adds(x, 1, (n - 1) as nat);
    assert(x * (eval_int(low, x) + top * pow(x, (n - 1) as nat)) == x * eval_int(low, x) + top
        * (x * pow(x, (n - 1) as nat))) by (nonlinear_arith);
    assert(x * eval_int(s, x) == x * eval_int(low, x) + top * pow(x, n));
    lemma_mul_mod_noop_general(top, pow(x, n), q);
    assert(top * (q - 1) == q * top + (-top)) by (nonlinear_arith);
    lemma_mod_multiples_vanish(top, -top, q);
    assert((top * pow(x, n)) % q == (-top) % q);
    lemma_add_mod_noop(x * eval_int(low, x), top * pow(x, n), q);
    lemma_add_mod_noop(x * eval_int(low, x), -top, q);
}

/// At a point whose power `n` is minus one, `x^m` times the value of `s` is
/// the value of `s` rotated by `m` places.
pub proof fn lemma_eval_rotated_by(s: Seq<int>, x: int, m: nat, q: int)
    requires
        q >= 2,
        s.len() >= 1,
        pow(x, s.len()) % q == q - 1,
    ensures
        (pow(x, m) * eval_int(s, x)) % q == eval_int(rotated_by(s, m), x) % q,
    decreases m,
{
    if m == 0 {
        lemma_pow0(x);
        assert(1 * eval_int(s, x) == eval_int(s, x));
    } else {
        let u = (m - 1) as nat;
        lemma_eval_rotated_by(s, x, u, q);
        let before = rotated_by(s, u);
        lemma_rotated_length(s, u);
        lemma_eval_rotated(before, x, q);
        lemma_pow_adds(x, 1, u);
        lemma_pow1(x);
        assert(pow(x, m) * eval_int(s, x) == x * (pow(x, u) * eval_int(s, x)))
            by (nonlinear_arith)
            requires
                pow(x, m) == x * pow(x, u),
        ;
        lemma_mul_mod_noop_general(x, pow(x, u) * eval_int(s, x), q);
        lemma_mul_mod_noop_general(x, eval_int(before, x), q);
    }
}

/// Rotating keeps the length.
pub proof fn lemma_rotated_length(s: Seq<int>, m: nat)
    ensures
        rotated_by(s, m).len() == s.len(),
    decreases m,
{
    if m > 0 {
        lemma_rotated_length(s, (m - 1) as nat);
    }
}

/// The value of the first `upto` coefficients of `a`, times the value of
/// `b`, is the value of their negacyclic product, at a point whose power `n`
/// is minus one.
pub proof fn lemma_eval_convolution(a: Seq<int>, b: Seq<int>, upto: nat, x: int, q: int)
    requires
        q >= 2,
        b.len() >= 1,
        upto <= a.len(),
        pow(x, b.len()) % q == q - 1,
    ensures
        (eval_int(a.take(upto as int), x) * eval_int(b, x)) % q == eval_int(
            convolution(a, b, upto),
            x,
        ) % q,
    decreases upto,
{
    if upto == 0 {
        assert(a.take(0).len() == 0);
        assert(0 * eval_int(b, x) == 0);
        lemma_eval_zero(b.len(), x);
    } else {
        let u = (upto - 1) as nat;
        lemma_eval_convolution(a, b, u, x, q);
        let part = a.take(upto as int);
        assert(part.drop_last() =~= a.take(u as int));
        assert(part.last() == a[u as int]);
        let c = a[u as int];
        let ea = eval_int(a.take(u as int), x);
        let eb = eval_int(b, x);
        let rot = rotated_by(b, u);
        lemma_rotated_length(b, u);
        lemma_eval_rotated_by(b, x, u, q);
        // the value of the product splits like the coefficients
        let conv = convolution(a, b, upto);
        let before = convolution(a, b, u);
        lemma_convolution_length(a, b, u);
        assert forall|k: int| 0 <= k < conv.len() implies (#[trigger] conv[k]) % q == (before[k]
            + c * rot[k]) % q by {}
        lemma_eval_int_linear(conv, before, rot, c, x, q);
        assert((ea + c * pow(x, u)) * eb == ea * eb + c * (pow(x, u) * eb)) by (nonlinear_arith);
        lemma_mul_mod_noop_general(c, pow(x, u) * eb, q);
        lemma_mul_mod_noop_general(c, eval_int(rot, x), q);
        lemma_add_mod_noop(ea * eb, c * (pow(x, u) * eb), q);
        lemma_add_mod_noop(eval_int(before, x), c * eval_int(rot, x), q);
    }
}

/// A negacyclic product has the length of its second factor.
pub proof fn lemma_convolution_length(a: Seq<int>, b: Seq<int>, upto: nat)
    ensures
        convolution(a, b, upto).len() == b.len(),
    decreases upto,
{
    if upto > 0 {
        lemma_convolution_length(a, b, (upto - 1) as nat);
    }
}

/// Where the coefficients are congruent, so are the values.
pub proof fn lemma_eval_int_congruent(u: Seq<int>, v: Seq<int>, y: int, q: int)
    requires
        q > 0,
        u.len() == v.len(),
        forall|k: int| 0 <= k < u.len() ==> (#[trigger] u[k]) % q == v[k] % q,
    ensures
        eval_int(u, y) % q == eval_int(v, y) % q,
{
    assert forall|k: int| 0 <= k < u.len() implies (#[trigger] u[k]) % q == (v[k] + 0 * v[k]) % q by {
        assert(0 * v[k] == 0);
    }
    lemma_eval_int_linear(u, v, v, 0, y, q);
    assert(0 * eval_int(v, y) == 0);
}

/// The odd powers of a root for length `n` have the power `n` minus one.
pub proof fn lemma_odd_power_root(psi: int, n: nat, k: nat, q: int)
    requires
        q >= 2,
        is_negacyclic_root(psi, n, q),
    ensures
        pow(pow(psi, 2 * k + 1), n) % q == q - 1,
{
    lemma_pow_multiplies(psi, 2 * k + 1, n);
    lemma_pow_multiplies(psi, n, 2 * k + 1);
    lemma_mul_is_commutative((2 * k + 1) as int, n as int);
    lemma_pow_mod_noop(pow(psi, n), 2 * k + 1, q);
    lemma_pow_minus_one(q, 2 * k + 1);
}

/// Two transforms of one length modulo one modulus have the same root, and
/// so the same forward transform.
pub proof fn lemma_same_root(first: NttOperator, second: NttOperator)
    requires
        first.wf(),
        second.wf(),
        first.q() == second.q(),
        first.n() == second.n(),
    ensures
        first.root() == second.root(),
        forall|a: Seq<u64>| #[trigger] first.forward_of(a) == second.forward_of(a),
{
    let n = first.n() as int;
    let q = first.q();
    let x = choose|x: int|
        2 <= x < crate::ntt::ROOT_SEARCH_LIMIT && x < q && first.root() == #[trigger] root_from(x, n, q)
            && is_negacyclic_root(first.root(), n as nat, q) && forall|y: int|
            2 <= y < x ==> !is_negacyclic_root(#[trigger] root_from(y, n, q), n as nat, q);
    let z = choose|z: int|
        2 <= z < crate::ntt::ROOT_SEARCH_LIMIT && z < q && second.root() == #[trigger] root_from(z, n, q)
            && is_negacyclic_root(second.root(), n as nat, q) && forall|y: int|
            2 <= y < z ==> !is_negacyclic_root(#[trigger] root_from(y, n, q), n as nat, q);
    if x < z {
        assert(!is_negacyclic_root(root_from(x, n, q), n as nat, q));
    }
    if z < x {
        assert(!is_negacyclic_root(root_from(z, n, q), n as nat, q));
    }
    assert(x == z);
    assert forall|a: Seq<u64>| #[trigger] first.forward_of(a) == second.forward_of(a) by {
        assert(first.forward_of(a) =~= second.forward_of(a));
    }
}

/// The value of a scaled polynomial.
pub proof fn lemma_eval_int_scaled(s: Seq<int>, c: int, y: int)
    ensures
        eval_int(Seq::new(s.len(), |k: int| c * s[k]), y) == c * eval_int(s, y),
    decreases s.len(),
{
    let scaled = Seq::new(s.len(), |k: int| c * s[k]);
    if s.len() == 0 {
        assert(c * 0 == 0);
    } else {
        let rest = s.drop_last();
        assert(scaled.drop_last() =~= Seq::new(rest.len(), |k: int| c * rest[k]));
        lemma_eval_int_scaled(rest, c, y);
        let p = pow(y, (s.len() - 1) as nat);
        assert(c * eval_int(rest, y) + (c * s.last()) * p == c * (eval_int(rest, y) + s.last() * p))
            by (nonlinear_arith);
    }
}

/// The value is linear in three families of coefficients, modulo `q`.
pub proof fn lemma_eval_int_combination(
    u: Seq<int>,
    a: Seq<int>,
    b: Seq<int>,
    c: Seq<int>,
    alpha: int,
    beta: int,
    gamma: int,
    y: int,
    q: int,
)
    requires
        q > 0,
        u.len() == a.len(),
        u.len() == b.len(),
        u.len() == c.len(),
        forall|k: int|
            0 <= k < u.len() ==> (#[trigger] u[k]) % q == (alpha * a[k] + beta * b[k] + gamma * c[k])
                % q,
    ensures
        eval_int(u, y) % q == (alpha * eval_int(a, y) + beta * eval_int(b, y) + gamma * eval_int(
            c,
            y,
        )) % q,
    decreases u.len(),
{
    if u.len() == 0 {
        assert(alpha * 0 + beta * 0 + gamma * 0 == 0);
    } else {
        let e = (u.len() - 1) as nat;
        let p = pow(y, e);
        lemma_eval_int_combination(
            u.drop_last(),
            a.drop_last(),
            b.drop_last(),
            c.drop_last(),
            alpha,
            beta,
            gamma,
            y,
            q,
        );
        let eu = eval_int(u.drop_last(), y);
        let ea = eval_int(a.drop_last(), y);
        let eb = eval_int(b.drop_last(), y);
        let ec = eval_int(c.drop_last(), y);
        let top = alpha * a.last() + beta * b.last() + gamma * c.last();
        assert(u.last() % q == top % q);
        lemma_mul_mod_noop_general(u.last(), p, q);
        lemma_mul_mod_noop_general(top, p, q);
        lemma_add_mod_noop(eu, u.last() * p, q);
        lemma_add_mod_noop(alpha * ea + beta * eb + gamma * ec, top * p, q);
        let al = a.last();
        let bl = b.last();
        let cl = c.last();
        assert(alpha * (ea + al * p) == alpha * ea + (alpha * al) * p) by (nonlinear_arith);
        assert(beta * (eb + bl * p) == beta * eb + (beta * bl) * p) by (nonlinear_arith);
        assert(gamma * (ec + cl * p) == gamma * ec + (gamma * cl) * p) by (nonlinear_arith);
        let x1 = alpha * al;
        let x2 = beta * bl;
        let x3 = gamma * cl;
        assert((x1 + x2 + x3) * p == x1 * p + x2 * p + x3 * p) by (nonlinear_arith);
    }
}

/// Residues whose forward transform is zero everywhere are zero.
pub proof fn lemma_forward_zero(op: NttOperator, v: Seq<u64>)
    requires
        op.wf(),
        v.len() == op.n(),
        reduced(v, op.q()),
        forall|k: int| 0 <= k < v.len() ==> (#[trigger] op.forward_of(v)[k]) == 0,
    ensures
        forall|c: int| 0 <= c < v.len() ==> (#[trigger] v[c]) == 0,
{
    let zeros = Seq::new(v.len(), |c: int| 0u64);
    assert forall|k: int| 0 <= k < v.len() implies (#[trigger] op.forward_of(zeros)[k]) == 0 by {
        let point = pow(op.root(), (2 * k + 1) as nat);
        lemma_eval_as_ints(zeros, point);
        assert(as_ints(zeros) =~= Seq::new(v.len(), |c: int| 0int));
        lemma_eval_zero(v.len(), point);
        lemma_small_mod(0, op.q() as nat);
    }
    assert(op.forward_of(v) =~= op.forward_of(zeros));
    lemma_backward_forward(op, v);
    lemma_backward_forward(op, zeros);
    assert forall|c: int| 0 <= c < v.len() implies (#[trigger] v[c]) == 0 by {
        assert(v[c] == zeros[c]);
    }
}

} // verus!
