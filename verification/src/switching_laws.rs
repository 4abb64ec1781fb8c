//! What a switch with a digit-by-digit key gives: under the secret of the
//! key, the product of the key's polynomial and the input, plus the errors
//! of the key times the rows of the input.

use crate::basis_laws::lemma_hat_multiple;
use crate::hybrid_key_switching_key::{hybrid_c0_rows, is_hybrid_generator};
use crate::key_switching_key::{
    accumulated_rows, all_in, bv_terms, c0_rows, constant_rows, is_bv_c0, is_bv_element, is_small,
    rows_of, secret_rows, ERROR_BOUND,
};
use crate::modulus::{
    add_seq, as_ints, inverse_of, lemma_product_multiple, mul_seq, reduced, scale_seq, seq_product,
    sub_seq,
};
use crate::ntt::poly_eval;
use crate::ntt_laws::lemma_backward_forward;
use crate::ntt_laws::{
    convolution, eval_int, lemma_convolution_bound, lemma_convolution_length, lemma_eval_as_ints,
    lemma_eval_convolution, lemma_eval_int_congruent, lemma_eval_int_linear, lemma_eval_zero,
    lemma_odd_power_root, within,
};
use vstd::arithmetic::power::pow;
use crate::poly::{
    add_rows, forward_rows, is_generator, lift_i64_rows, mul_rows, residues_in, sub_rows, Poly,
    PolyContext,
};
use vstd::arithmetic::div_mod::*;
use vstd::arithmetic::mul::*;
use vstd::prelude::*;

verus! {

/// `p` has `l` rows of `n` residues.
pub open spec fn shaped(p: Seq<Seq<u64>>, l: nat, n: nat) -> bool {
    p.len() == l && forall|r: int| 0 <= r < l ==> (#[trigger] p[r]).len() == n
}

/// Every polynomial of `polys` has `l` rows of `n` residues.
pub open spec fn all_shaped(polys: Seq<Seq<Seq<u64>>>, l: nat, n: nat) -> bool {
    forall|i: int| 0 <= i < polys.len() ==> shaped(#[trigger] polys[i], l, n)
}

/// The sum over the first `upto` indices of `keys[i][r][k] * terms[i][r][k]`.
pub open spec fn products_sum(
    keys: Seq<Seq<Seq<u64>>>,
    terms: Seq<Seq<Seq<u64>>>,
    r: int,
    k: int,
    upto: nat,
) -> int
    decreases upto,
{
    if upto == 0 {
        0
    } else {
        products_sum(keys, terms, r, k, (upto - 1) as nat) + keys[upto - 1][r][k] * terms[upto
            - 1][r][k]
    }
}

/// An accumulated sum holds, at every place, the residue of the sum of the
/// products at that place.
pub proof fn lemma_accumulated_value(
    keys: Seq<Seq<Seq<u64>>>,
    terms: Seq<Seq<Seq<u64>>>,
    moduli: Seq<int>,
    n: nat,
    upto: nat,
    r: int,
    k: int,
)
    requires
        1 <= upto <= keys.len(),
        keys.len() == terms.len(),
        all_shaped(keys, moduli.len(), n),
        all_shaped(terms, moduli.len(), n),
        0 <= r < moduli.len(),
        0 <= k < n,
        0 < moduli[r] <= u64::MAX,
    ensures
        accumulated_rows(keys, terms, moduli, upto).len() == moduli.len(),
        accumulated_rows(keys, terms, moduli, upto)[r].len() == n,
        accumulated_rows(keys, terms, moduli, upto)[r][k] == products_sum(keys, terms, r, k, upto)
            % moduli[r],
    decreases upto,
{
    let q = moduli[r];
    assert(shaped(keys[0], moduli.len(), n));
    assert(shaped(keys[upto - 1], moduli.len(), n));
    assert(keys[0][r].len() == n);
    assert(keys[upto - 1][r].len() == n);
    if upto == 1 {
        assert(products_sum(keys, terms, r, k, 0) == 0);
        lemma_mod_bound(keys[0][r][k] * terms[0][r][k], q);
        let m = mul_rows(keys[0], terms[0], moduli);
        assert(m[r] == mul_seq(keys[0][r], terms[0][r], q));
        assert(m[r][k] == (keys[0][r][k] * terms[0][r][k]) % q);
    } else {
        lemma_accumulated_value(keys, terms, moduli, n, (upto - 1) as nat, r, k);
        let before = products_sum(keys, terms, r, k, (upto - 1) as nat);
        let last = keys[upto - 1][r][k] * terms[upto - 1][r][k];
        lemma_mod_bound(last, q);
        lemma_add_mod_noop(before, last, q);
        lemma_mod_bound(before + last, q);
        lemma_mod_bound(before, q);
        let acc = accumulated_rows(keys, terms, moduli, (upto - 1) as nat);
        let m = mul_rows(keys[upto - 1], terms[upto - 1], moduli);
        assert(m[r] == mul_seq(keys[upto - 1][r], terms[upto - 1][r], q));
        assert(m[r][k] == last % q);
        let sum = add_rows(acc, m, moduli);
        assert(sum[r] == add_seq(acc[r], m[r], q));
        assert(sum[r][k] == (acc[r][k] + m[r][k]) % q);
    }
}

/// The sum over the first `upto` indices of `(c0 + c1 * s) * term` at the
/// place `(r, k)`.
pub open spec fn combined_sum(
    c0s: Seq<Seq<Seq<u64>>>,
    c1s: Seq<Seq<Seq<u64>>>,
    terms: Seq<Seq<Seq<u64>>>,
    s: Seq<Seq<u64>>,
    r: int,
    k: int,
    upto: nat,
) -> int
    decreases upto,
{
    if upto == 0 {
        0
    } else {
        combined_sum(c0s, c1s, terms, s, r, k, (upto - 1) as nat) + (c0s[upto - 1][r][k]
            + c1s[upto - 1][r][k] * s[r][k]) * terms[upto - 1][r][k]
    }
}

/// The first sum plus the secret times the second sum is the sum of the
/// combined products.
pub proof fn lemma_combined_sum(
    c0s: Seq<Seq<Seq<u64>>>,
    c1s: Seq<Seq<Seq<u64>>>,
    terms: Seq<Seq<Seq<u64>>>,
    s: Seq<Seq<u64>>,
    r: int,
    k: int,
    upto: nat,
)
    ensures
        products_sum(c0s, terms, r, k, upto) + s[r][k] * products_sum(c1s, terms, r, k, upto)
            == combined_sum(c0s, c1s, terms, s, r, k, upto),
    decreases upto,
{
    if upto == 0 {
        assert(s[r][k] * 0 == 0);
    } else {
        lemma_combined_sum(c0s, c1s, terms, s, r, k, (upto - 1) as nat);
        let a = products_sum(c1s, terms, r, k, (upto - 1) as nat);
        let c0 = c0s[upto - 1][r][k] as int;
        let c1 = c1s[upto - 1][r][k] as int;
        let t = terms[upto - 1][r][k] as int;
        let sv = s[r][k] as int;
        assert(sv * (a + c1 * t) + c0 * t == sv * a + (c0 + c1 * sv) * t) by (nonlinear_arith);
    }
}

/// A generator leaves one under its own modulus and zero under the others.
pub proof fn lemma_generator_residue(g: nat, moduli: Seq<int>, i: int, r: int)
    requires
        0 <= i < moduli.len(),
        0 <= r < moduli.len(),
        forall|l: int| 0 <= l < moduli.len() ==> (#[trigger] moduli[l]) >= 2,
        is_generator(g, seq_product(moduli), moduli[i]),
    ensures
        (g as int) % moduli[r] == if r == i {
            1int
        } else {
            0int
        },
{
    let hat = seq_product(moduli) / moduli[i];
    let x = choose|x: int| 0 <= x < moduli[i] && #[trigger] inverse_of(hat, x, moduli[i]) && g
        == hat * x;
    if r != i {
        lemma_hat_multiple(moduli, r, i);
        let f = choose|f: int| seq_product(moduli) / moduli[i] == #[trigger] (moduli[r] * f);
        assert(hat * x == moduli[r] * (f * x)) by (nonlinear_arith)
            requires
                hat == moduli[r] * f,
        ;
        lemma_mod_multiples_basic(f * x, moduli[r]);
        lemma_mul_is_commutative(f * x, moduli[r]);
    }
}

/// The first component of a key element plus the second times the secret
/// is, at every place, the error plus the generator times the key's
/// polynomial.
pub proof fn lemma_element_residue(
    g: nat,
    a: Seq<Seq<u64>>,
    c1: Seq<Seq<u64>>,
    s: Seq<Seq<u64>>,
    e: Seq<Seq<u64>>,
    ctx: PolyContext,
    r: int,
    k: int,
)
    requires
        ctx.wf(),
        e.len() == ctx.moduli().len(),
        c1.len() == ctx.moduli().len(),
        0 <= r < ctx.moduli().len(),
        e[r].len() == ctx.n(),
        c1[r].len() == ctx.n(),
        0 <= k < ctx.n(),
    ensures
        c0_rows(g, a, c1, s, e, ctx).len() == ctx.moduli().len(),
        c0_rows(g, a, c1, s, e, ctx)[r].len() == ctx.n(),
        (c0_rows(g, a, c1, s, e, ctx)[r][k] + c1[r][k] * s[r][k]) % ctx.moduli()[r] == (e[r][k] + (
        (g as int) % ctx.moduli()[r]) * a[r][k]) % ctx.moduli()[r],
{
    ctx.lemma_wf();
    let q = ctx.moduli()[r];
    let gr = (g as int) % q;
    lemma_mod_bound(g as int, q);
    let ga = (gr * a[r][k]) % q;
    let sum = (e[r][k] + ga) % q;
    let cs = (c1[r][k] * s[r][k]) % q;
    lemma_mod_bound(gr * a[r][k], q);
    lemma_mod_bound(e[r][k] + ga, q);
    lemma_mod_bound(c1[r][k] * s[r][k], q);
    lemma_mod_bound(sum - cs, q);
    let c0 = (sum - cs) % q;
    let m = ctx.moduli();
    let constant = constant_rows(g, ctx);
    assert(constant[r][k] == gr);
    let product = mul_rows(constant, a, m);
    assert(product[r] == mul_seq(constant[r], a[r], q));
    assert(product[r][k] == ga);
    let with_error = add_rows(e, product, m);
    assert(with_error[r] == add_seq(e[r], product[r], q));
    assert(with_error[r][k] == sum);
    let secret_part = mul_rows(c1, s, m);
    assert(secret_part[r] == mul_seq(c1[r], s[r], q));
    assert(secret_part[r][k] == cs);
    let all = sub_rows(with_error, secret_part, m);
    assert(all[r] == sub_seq(with_error[r], secret_part[r], q));
    assert(all[r][k] == c0);
    assert(c0_rows(g, a, c1, s, e, ctx)[r][k] == c0);
    // (sum - cs) + c1 * s is congruent to sum
    lemma_add_mod_noop_right(c0, c1[r][k] * s[r][k], q);
    assert((c0 + c1[r][k] * s[r][k]) % q == (c0 + cs) % q);
    lemma_add_mod_noop(sum - cs, cs, q);
    lemma_small_mod(cs as nat, q as nat);
    assert((c0 + cs) % q == sum % q);
    assert((c0 + c1[r][k] * s[r][k]) % q == sum % q);
    lemma_mod_twice(e[r][k] + ga, q);
    lemma_add_mod_noop_right(e[r][k] as int, gr * a[r][k], q);
}

/// The signed values of `e` as integers.
pub open spec fn ints_of(e: Seq<i64>) -> Seq<int> {
    Seq::new(e.len(), |j: int| e[j] as int)
}

/// The residues of the errors `e`, as values at the roots.
pub open spec fn error_rows(e: Seq<i64>, ctx: PolyContext) -> Seq<Seq<u64>> {
    forward_rows(lift_i64_rows(e, ctx.moduli()), ctx)
}

/// The noise of a switch: the sum over the first `upto` rows of the
/// negacyclic product of the row of the input with the errors of the key
/// element that belongs to it.
pub open spec fn switch_noise(x: Seq<Seq<u64>>, e: Seq<Seq<i64>>, n: nat, upto: nat) -> Seq<int>
    decreases upto,
{
    if upto == 0 {
        Seq::new(n, |k: int| 0int)
    } else {
        Seq::new(
            n,
            |k: int|
                switch_noise(x, e, n, (upto - 1) as nat)[k] + convolution(
                    as_ints(x[upto - 1]),
                    ints_of(e[upto - 1]),
                    n,
                )[k],
        )
    }
}

/// The sum of the first `upto` moduli, each less one.
pub open spec fn moduli_sum(moduli: Seq<int>, upto: nat) -> int
    decreases upto,
{
    if upto == 0 {
        0
    } else {
        moduli_sum(moduli, (upto - 1) as nat) + (moduli[upto - 1] - 1)
    }
}

/// The noise of a switch lies within the degree times the bound of the
/// errors times the sum of the moduli.
pub proof fn lemma_switch_noise_bound(
    x: Seq<Seq<u64>>,
    e: Seq<Seq<i64>>,
    moduli: Seq<int>,
    n: nat,
    bound: int,
    upto: nat,
)
    requires
        upto <= moduli.len(),
        x.len() == moduli.len(),
        e.len() == moduli.len(),
        bound >= 0,
        forall|i: int| 0 <= i < moduli.len() ==> (#[trigger] moduli[i]) >= 1,
        forall|i: int| 0 <= i < x.len() ==> (#[trigger] x[i]).len() == n && reduced(x[i], moduli[i]),
        forall|i: int| 0 <= i < e.len() ==> (#[trigger] e[i]).len() == n && within(ints_of(e[i]), bound),
    ensures
        switch_noise(x, e, n, upto).len() == n,
        within(switch_noise(x, e, n, upto), n * (bound * moduli_sum(moduli, upto))),
        moduli_sum(moduli, upto) >= 0,
    decreases upto,
{
    if upto == 0 {
        assert(n * (bound * 0) == 0) by (nonlinear_arith);
    } else {
        let u = (upto - 1) as nat;
        lemma_switch_noise_bound(x, e, moduli, n, bound, u);
        let a = as_ints(x[u as int]);
        let b = ints_of(e[u as int]);
        let qa = moduli[u as int] - 1;
        assert(within(a, qa)) by {
            assert(reduced(x[u as int], moduli[u as int]));
        }
        lemma_convolution_bound(a, b, n, qa, bound);
        let total = switch_noise(x, e, n, upto);
        let before = switch_noise(x, e, n, u);
        let conv = convolution(a, b, n);
        let s0 = moduli_sum(moduli, u);
        assert(n * (bound * (s0 + qa)) == n * (bound * s0) + n * (qa * bound)) by (nonlinear_arith);
        assert forall|k: int| 0 <= k < total.len() implies -(n * (bound * moduli_sum(moduli, upto)))
            <= (#[trigger] total[k]) <= n * (bound * moduli_sum(moduli, upto)) by {
            assert(-(n * (bound * s0)) <= before[k] <= n * (bound * s0));
            assert(-(n * (qa * bound)) <= conv[k] <= n * (qa * bound));
        }
    }
}

/// The sum over the first `upto` elements of the error times the digit at
/// the place `(r, k)`.
pub open spec fn noise_values(
    e: Seq<Seq<i64>>,
    terms: Seq<Seq<Seq<u64>>>,
    ctx: PolyContext,
    r: int,
    k: int,
    upto: nat,
) -> int
    decreases upto,
{
    if upto == 0 {
        0
    } else {
        noise_values(e, terms, ctx, r, k, (upto - 1) as nat) + error_rows(e[upto - 1], ctx)[r][k]
            * terms[upto - 1][r][k]
    }
}

/// The hypotheses of the law of the switch: a key of one element for each
/// modulus of the context, built on the polynomial `a`, the secret `sk` and
/// the errors `e`, and an input `x`.
pub open spec fn is_bv_key(
    c0s: Seq<Poly>,
    c1s: Seq<Poly>,
    ctx: PolyContext,
    a: Seq<Seq<u64>>,
    sk: Seq<i64>,
    e: Seq<Seq<i64>>,
) -> bool {
    &&& ctx.wf()
    &&& c0s.len() == ctx.moduli().len()
    &&& c1s.len() == ctx.moduli().len()
    &&& e.len() == ctx.moduli().len()
    &&& residues_in(a, ctx.moduli(), ctx.n())
    &&& forall|i: int| 0 <= i < e.len() ==> (#[trigger] e[i]).len() == ctx.n()
    &&& forall|i: int|
        0 <= i < c1s.len() ==> shaped((#[trigger] c1s[i]).rows(), ctx.moduli().len(), ctx.n())
    &&& forall|i: int|
        0 <= i < c0s.len() ==> is_bv_c0(#[trigger] c0s[i], i, ctx, ctx, a, c1s[i].rows(), sk, e[i])
}

/// The combined products of a key are, at every place, the errors times the
/// digits plus the key's polynomial times the digit of the place's own row.
pub proof fn lemma_combined_value(
    c0s: Seq<Poly>,
    c1s: Seq<Poly>,
    ctx: PolyContext,
    a: Seq<Seq<u64>>,
    sk: Seq<i64>,
    e: Seq<Seq<i64>>,
    terms: Seq<Seq<Seq<u64>>>,
    r: int,
    k: int,
    upto: nat,
)
    requires
        is_bv_key(c0s, c1s, ctx, a, sk, e),
        upto <= ctx.moduli().len(),
        0 <= r < ctx.moduli().len(),
        0 <= k < ctx.n(),
    ensures
        combined_sum(rows_of(c0s), rows_of(c1s), terms, secret_rows(sk, ctx), r, k, upto)
            % ctx.moduli()[r] == (noise_values(e, terms, ctx, r, k, upto) + if r < upto {
            a[r][k] * terms[r][r][k]
        } else {
            0
        }) % ctx.moduli()[r],
    decreases upto,
{
    ctx.lemma_wf();
    let q = ctx.moduli()[r];
    let s = secret_rows(sk, ctx);
    if upto > 0 {
        let i = (upto - 1) as int;
        lemma_combined_value(c0s, c1s, ctx, a, sk, e, terms, r, k, i as nat);
        let errors = error_rows(e[i], ctx);
        let c1 = c1s[i].rows();
        assert(is_bv_c0(c0s[i], i, ctx, ctx, a, c1, sk, e[i]));
        let g = choose|g: nat| #[trigger]
            is_generator(g, seq_product(ctx.moduli()), ctx.moduli()[i]) && c0s[i].rows()
                == c0_rows(g, a, c1, s, errors, ctx);
        assert(shaped(c1, ctx.moduli().len(), ctx.n()));
        assert(errors.len() == ctx.moduli().len());
        assert(errors[r].len() == ctx.n());
        lemma_element_residue(g, a, c1, s, errors, ctx, r, k);
        lemma_generator_residue(g, ctx.moduli(), i, r);
        let t = terms[i][r][k] as int;
        let c0v = c0s[i].rows()[r][k] as int;
        let left = c0v + c1[r][k] * s[r][k];
        let right = errors[r][k] + if r == i {
            a[r][k] as int
        } else {
            0
        };
        assert(left % q == right % q) by {
            if r == i {
                assert(1 * a[r][k] == a[r][k]);
            } else {
                assert(0 * a[r][k] == 0);
            }
        }
        lemma_mul_mod_noop_general(left, t, q);
        lemma_mul_mod_noop_general(right, t, q);
        let before = combined_sum(rows_of(c0s), rows_of(c1s), terms, s, r, k, i as nat);
        let target_before = noise_values(e, terms, ctx, r, k, i as nat) + if r < i {
            a[r][k] * terms[r][r][k]
        } else {
            0
        };
        lemma_add_mod_noop(before, left * t, q);
        lemma_add_mod_noop(target_before, right * t, q);
        assert(rows_of(c0s)[i] == c0s[i].rows());
        assert(rows_of(c1s)[i] == c1s[i].rows());
        assert(right * t == errors[r][k] * t + if r == i {
            a[r][k] * t
        } else {
            0
        }) by (nonlinear_arith)
            requires
                right == errors[r][k] + if r == i {
                    a[r][k] as int
                } else {
                    0
                },
        ;
    }
}

/// The value of reduced signed coefficients is that of the coefficients.
pub proof fn lemma_eval_reduced_i64(e: Seq<i64>, y: int, q: int)
    requires
        0 < q <= u64::MAX,
    ensures
        poly_eval(crate::modulus::reduce_i64_seq(e, q), y) % q == eval_int(ints_of(e), y) % q,
{
    let red = crate::modulus::reduce_i64_seq(e, q);
    lemma_eval_as_ints(red, y);
    assert forall|j: int| 0 <= j < red.len() implies (#[trigger] as_ints(red)[j]) % q == ints_of(
        e,
    )[j] % q by {
        lemma_mod_bound(e[j] as int, q);
        lemma_mod_twice(e[j] as int, q);
    }
    lemma_eval_int_congruent(as_ints(red), ints_of(e), y, q);
}

/// The value of reduced coefficients is that of the coefficients.
pub proof fn lemma_eval_reduced_u64(x: Seq<u64>, y: int, q: int)
    requires
        0 < q <= u64::MAX,
    ensures
        poly_eval(crate::modulus::reduce_seq(x, q), y) % q == eval_int(as_ints(x), y) % q,
{
    let red = crate::modulus::reduce_seq(x, q);
    lemma_eval_as_ints(red, y);
    assert forall|j: int| 0 <= j < red.len() implies (#[trigger] as_ints(red)[j]) % q == as_ints(
        x,
    )[j] % q by {
        lemma_mod_bound(x[j] as int, q);
        lemma_mod_twice(x[j] as int, q);
    }
    lemma_eval_int_congruent(as_ints(red), as_ints(x), y, q);
}

/// The errors times the digits sum, at every place, to the value of the
/// noise at the root of the place.
pub proof fn lemma_noise_values(
    x: Seq<Seq<u64>>,
    e: Seq<Seq<i64>>,
    ctx: PolyContext,
    r: int,
    k: int,
    upto: nat,
)
    requires
        ctx.wf(),
        upto <= ctx.moduli().len(),
        x.len() == ctx.moduli().len(),
        e.len() == ctx.moduli().len(),
        forall|i: int| 0 <= i < x.len() ==> (#[trigger] x[i]).len() == ctx.n(),
        forall|i: int| 0 <= i < e.len() ==> (#[trigger] e[i]).len() == ctx.n(),
        0 <= r < ctx.moduli().len(),
        0 <= k < ctx.n(),
    ensures
        switch_noise(x, e, ctx.n(), upto).len() == ctx.n(),
        noise_values(e, bv_terms(x, ctx), ctx, r, k, upto) % ctx.moduli()[r] == eval_int(
            switch_noise(x, e, ctx.n(), upto),
            pow(ctx.ntt(r).root(), (2 * k + 1) as nat),
        ) % ctx.moduli()[r],
    decreases upto,
{
    ctx.lemma_wf();
    let n = ctx.n();
    let q = ctx.moduli()[r];
    let op = ctx.ntt(r);
    let point = pow(op.root(), (2 * k + 1) as nat);
    let terms = bv_terms(x, ctx);
    if upto == 0 {
        lemma_eval_zero(n, point);
    } else {
        let i = (upto - 1) as int;
        lemma_noise_values(x, e, ctx, r, k, i as nat);
        let a = as_ints(x[i]);
        let b = ints_of(e[i]);
        let conv = convolution(a, b, n);
        lemma_convolution_length(a, b, n);
        // the two factors at the place
        let ev = error_rows(e[i], ctx)[r][k] as int;
        let tv = terms[i][r][k] as int;
        lemma_eval_reduced_i64(e[i], point, q);
        lemma_eval_reduced_u64(x[i], point, q);
        lemma_mod_bound(poly_eval(crate::modulus::reduce_i64_seq(e[i], q), point), q);
        lemma_mod_bound(poly_eval(crate::modulus::reduce_seq(x[i], q), point), q);
        assert(ev == poly_eval(crate::modulus::reduce_i64_seq(e[i], q), point) % q);
        assert(tv == poly_eval(crate::modulus::reduce_seq(x[i], q), point) % q);
        // their product is the value of the negacyclic product
        lemma_odd_power_root(op.root(), n, k as nat, q);
        assert(a.take(n as int) =~= a);
        lemma_eval_convolution(a, b, n, point, q);
        lemma_mul_mod_noop_general(eval_int(b, point), eval_int(a, point), q);
        lemma_mul_mod_noop_general(ev, tv, q);
        lemma_mul_is_commutative(eval_int(a, point), eval_int(b, point));
        lemma_mod_twice(eval_int(b, point), q);
        lemma_mod_twice(eval_int(a, point), q);
        assert((ev * tv) % q == eval_int(conv, point) % q);
        // and the sums agree
        let total = switch_noise(x, e, n, upto);
        let before = switch_noise(x, e, n, i as nat);
        assert forall|j: int| 0 <= j < total.len() implies (#[trigger] total[j]) % q == (before[j]
            + 1 * conv[j]) % q by {
            assert(1 * conv[j] == conv[j]);
        }
        lemma_eval_int_linear(total, before, conv, 1, point, q);
        assert(1 * eval_int(conv, point) == eval_int(conv, point));
        lemma_add_mod_noop(noise_values(e, terms, ctx, r, k, i as nat), ev * tv, q);
        lemma_add_mod_noop(eval_int(before, point), eval_int(conv, point), q);
    }
}

/// What is left of a switched pair under the secret of the key, less the
/// product of the key's polynomial and the input.
pub open spec fn switch_remainder(
    c0s: Seq<Poly>,
    c1s: Seq<Poly>,
    ctx: PolyContext,
    a: Seq<Seq<u64>>,
    sk: Seq<i64>,
    x: Seq<Seq<u64>>,
) -> Seq<Seq<u64>> {
    let m = ctx.moduli();
    let out0 = accumulated_rows(rows_of(c0s), bv_terms(x, ctx), m, c0s.len());
    let out1 = accumulated_rows(rows_of(c1s), bv_terms(x, ctx), m, c1s.len());
    sub_rows(
        add_rows(out0, mul_rows(out1, secret_rows(sk, ctx), m), m),
        mul_rows(a, forward_rows(x, ctx), m),
        m,
    )
}

/// The residues of the integers `s` modulo `q`.
pub open spec fn residues_of(s: Seq<int>, q: int) -> Seq<u64> {
    Seq::new(s.len(), |j: int| (s[j] % q) as u64)
}

/// A switch gives the product plus the noise, at the roots: under the
/// secret of the key, the switched pair is the key's polynomial times the
/// input plus the noise, whose values at the roots are what is left.
pub proof fn lemma_bv_switch_values(
    c0s: Seq<Poly>,
    c1s: Seq<Poly>,
    ctx: PolyContext,
    a: Seq<Seq<u64>>,
    sk: Seq<i64>,
    e: Seq<Seq<i64>>,
    x: Seq<Seq<u64>>,
    r: int,
    k: int,
)
    requires
        is_bv_key(c0s, c1s, ctx, a, sk, e),
        residues_in(x, ctx.moduli(), ctx.n()),
        0 <= r < ctx.moduli().len(),
        0 <= k < ctx.n(),
    ensures
        switch_remainder(c0s, c1s, ctx, a, sk, x).len() == ctx.moduli().len(),
        switch_remainder(c0s, c1s, ctx, a, sk, x)[r].len() == ctx.n(),
        switch_remainder(c0s, c1s, ctx, a, sk, x)[r][k] == eval_int(
            switch_noise(x, e, ctx.n(), ctx.moduli().len()),
            pow(ctx.ntt(r).root(), (2 * k + 1) as nat),
        ) % ctx.moduli()[r],
{
    ctx.lemma_wf();
    let m = ctx.moduli();
    let l = m.len();
    let n = ctx.n();
    let q = m[r];
    let s = secret_rows(sk, ctx);
    let terms = bv_terms(x, ctx);
    let k0 = rows_of(c0s);
    let k1 = rows_of(c1s);
    // the shapes
    assert(all_shaped(terms, l, n)) by {
        assert forall|i: int| 0 <= i < terms.len() implies shaped(#[trigger] terms[i], l, n) by {
            assert(x[i].len() == n);
        }
    }
    assert(all_shaped(k1, l, n));
    assert(all_shaped(k0, l, n)) by {
        assert forall|i: int| 0 <= i < k0.len() implies shaped(#[trigger] k0[i], l, n) by {
            let c1 = c1s[i].rows();
            assert(is_bv_c0(c0s[i], i, ctx, ctx, a, c1, sk, e[i]));
            let g = choose|g: nat| #[trigger]
                is_generator(g, seq_product(m), m[i]) && c0s[i].rows() == c0_rows(
                    g,
                    a,
                    c1,
                    s,
                    error_rows(e[i], ctx),
                    ctx,
                );
            assert(e[i].len() == n);
            assert(shaped(c1, l, n));
            assert forall|row: int| 0 <= row < l implies (#[trigger] k0[i][row]).len() == n by {
                lemma_element_residue(g, a, c1, s, error_rows(e[i], ctx), ctx, row, 0);
            }
            lemma_element_residue(g, a, c1, s, error_rows(e[i], ctx), ctx, 0, 0);
        }
    }
    lemma_accumulated_value(k0, terms, m, n, l, r, k);
    lemma_accumulated_value(k1, terms, m, n, l, r, k);
    let out0 = accumulated_rows(k0, terms, m, l);
    let out1 = accumulated_rows(k1, terms, m, l);
    let p0 = products_sum(k0, terms, r, k, l);
    let p1 = products_sum(k1, terms, r, k, l);
    lemma_combined_sum(k0, k1, terms, s, r, k, l);
    lemma_combined_value(c0s, c1s, ctx, a, sk, e, terms, r, k, l);
    lemma_noise_values(x, e, ctx, r, k, l);
    let noise = eval_int(switch_noise(x, e, n, l), pow(ctx.ntt(r).root(), (2 * k + 1) as nat));
    let nv = noise_values(e, terms, ctx, r, k, l);
    // the digit of the place's own row is the transformed row
    let xhat = forward_rows(x, ctx);
    assert(crate::modulus::reduce_seq(x[r], q) =~= x[r]) by {
        assert(reduced(x[r], q));
        assert forall|j: int| 0 <= j < x[r].len() implies crate::modulus::reduce_seq(x[r], q)[j]
            == x[r][j] by {
            lemma_small_mod(x[r][j] as nat, q as nat);
        }
    }
    assert(terms[r][r] == xhat[r]);
    let av = a[r][k] as int;
    let xv = xhat[r][k] as int;
    // unfold the remainder at the place
    let second = mul_rows(out1, s, m);
    assert(second[r] == mul_seq(out1[r], s[r], q));
    let sv = s[r][k] as int;
    assert(second[r][k] == (out1[r][k] * sv) % q);
    let sum = add_rows(out0, second, m);
    assert(sum[r] == add_seq(out0[r], second[r], q));
    assert(sum[r][k] == (out0[r][k] + second[r][k]) % q);
    let product = mul_rows(a, xhat, m);
    assert(a[r].len() == n);
    assert(product[r] == mul_seq(a[r], xhat[r], q));
    assert(product[r][k] == (av * xv) % q);
    let rest = sub_rows(sum, product, m);
    assert(rest[r] == sub_seq(sum[r], product[r], q));
    assert(rest[r][k] == (sum[r][k] - product[r][k]) % q);
    // the sum is p0 + s * p1, which is the noise plus the product
    lemma_mul_mod_noop_general(p1, sv, q);
    lemma_mul_is_commutative(p1, sv);
    lemma_add_mod_noop(p0, sv * p1, q);
    assert(sum[r][k] == (p0 + sv * p1) % q);
    assert((p0 + sv * p1) % q == (nv + av * xv) % q);
    lemma_sub_mod_noop(nv + av * xv, av * xv, q);
    lemma_mod_bound(noise, q);
    assert(rest[r][k] == nv % q);
}

/// A switch gives the product plus the noise: what is left of the switched
/// pair under the secret of the key, less the product of the key's polynomial
/// and the input, has for coefficients the residues of the noise.
pub proof fn lemma_bv_switch(
    c0s: Seq<Poly>,
    c1s: Seq<Poly>,
    ctx: PolyContext,
    a: Seq<Seq<u64>>,
    sk: Seq<i64>,
    e: Seq<Seq<i64>>,
    x: Seq<Seq<u64>>,
    r: int,
)
    requires
        is_bv_key(c0s, c1s, ctx, a, sk, e),
        residues_in(x, ctx.moduli(), ctx.n()),
        0 <= r < ctx.moduli().len(),
    ensures
        ctx.ntt(r).backward_of(switch_remainder(c0s, c1s, ctx, a, sk, x)[r]) == residues_of(
            switch_noise(x, e, ctx.n(), ctx.moduli().len()),
            ctx.moduli()[r],
        ),
{
    ctx.lemma_wf();
    let n = ctx.n();
    let q = ctx.moduli()[r];
    let op = ctx.ntt(r);
    let noise = switch_noise(x, e, n, ctx.moduli().len());
    let coefficients = residues_of(noise, q);
    let row = switch_remainder(c0s, c1s, ctx, a, sk, x)[r];
    lemma_noise_values(x, e, ctx, r, 0, ctx.moduli().len());
    assert(reduced(coefficients, q)) by {
        assert forall|j: int| 0 <= j < coefficients.len() implies (#[trigger] coefficients[j]) < q by {
            lemma_mod_bound(noise[j], q);
        }
    }
    assert forall|k: int| 0 <= k < n implies row[k] == op.forward_of(coefficients)[k] by {
        let point = pow(op.root(), (2 * k + 1) as nat);
        lemma_bv_switch_values(c0s, c1s, ctx, a, sk, e, x, r, k);
        lemma_eval_as_ints(coefficients, point);
        assert forall|j: int| 0 <= j < coefficients.len() implies (#[trigger] as_ints(
            coefficients,
        )[j]) % q == noise[j] % q by {
            lemma_mod_bound(noise[j], q);
            lemma_mod_twice(noise[j], q);
        }
        lemma_eval_int_congruent(as_ints(coefficients), noise, point, q);
        lemma_mod_bound(poly_eval(coefficients, point), q);
    }
    lemma_bv_switch_values(c0s, c1s, ctx, a, sk, e, x, r, 0);
    assert(row =~= op.forward_of(coefficients));
    lemma_backward_forward(op, coefficients);
}

/// `noise` is the noise of the switch of `x`: it is small, and under every
/// modulus its residues are the coefficients of what is left of the switched
/// pair under the secret, less the product of the key's polynomial and `x`.
pub open spec fn is_switch_noise(
    noise: Seq<int>,
    c0s: Seq<Poly>,
    c1s: Seq<Poly>,
    ctx: PolyContext,
    a: Seq<Seq<u64>>,
    sk: Seq<i64>,
    x: Seq<Seq<u64>>,
) -> bool {
    &&& noise.len() == ctx.n()
    &&& within(
        noise,
        ctx.n() * (ERROR_BOUND * moduli_sum(ctx.moduli(), ctx.moduli().len())),
    )
    &&& forall|r: int|
        0 <= r < ctx.moduli().len() ==> (#[trigger] ctx.ntt(r)).backward_of(
            switch_remainder(c0s, c1s, ctx, a, sk, x)[r],
        ) == residues_of(noise, ctx.moduli()[r])
}

/// A key of the digit-by-digit variant switches correctly: where every
/// element of the key is built on the polynomial `a` and the secret `sk`
/// with small errors, the switched pair of any input `x` is, under the
/// secret, the product of `a` and `x` plus a noise whose coefficients lie
/// within the degree times the bound of the errors times the sum of the
/// moduli. The key's context is that of the input.
pub proof fn lemma_bv_key_switch(
    c0s: Seq<Poly>,
    c1s: Seq<Poly>,
    ctx: PolyContext,
    a: Seq<Seq<u64>>,
    sk: Seq<i64>,
    x: Seq<Seq<u64>>,
)
    requires
        ctx.wf(),
        c0s.len() == ctx.moduli().len(),
        c1s.len() == ctx.moduli().len(),
        all_in(c1s, ctx),
        residues_in(a, ctx.moduli(), ctx.n()),
        residues_in(x, ctx.moduli(), ctx.n()),
        forall|i: int|
            0 <= i < c0s.len() ==> is_bv_element(#[trigger] c0s[i], i, ctx, ctx, a, c1s[i].rows(), sk),
    ensures
        exists|noise: Seq<int>| #[trigger] is_switch_noise(noise, c0s, c1s, ctx, a, sk, x),
{
    ctx.lemma_wf();
    let l = ctx.moduli().len();
    let n = ctx.n();
    let e = Seq::new(
        l,
        |i: int|
            choose|e: Seq<i64>|
                e.len() == n && is_small(e) && #[trigger] is_bv_c0(
                    c0s[i],
                    i,
                    ctx,
                    ctx,
                    a,
                    c1s[i].rows(),
                    sk,
                    e,
                ),
    );
    assert forall|i: int| 0 <= i < l implies (#[trigger] e[i]).len() == n && is_small(e[i])
        && is_bv_c0(c0s[i], i, ctx, ctx, a, c1s[i].rows(), sk, e[i]) by {
        assert(is_bv_element(c0s[i], i, ctx, ctx, a, c1s[i].rows(), sk));
    }
    assert forall|i: int| 0 <= i < c1s.len() implies shaped(
        (#[trigger] c1s[i]).rows(),
        l,
        n,
    ) by {
        assert(c1s[i].wf());
    }
    assert(is_bv_key(c0s, c1s, ctx, a, sk, e));
    let noise = switch_noise(x, e, n, l);
    assert forall|i: int| 0 <= i < e.len() implies (#[trigger] e[i]).len() == n && within(
        ints_of(e[i]),
        ERROR_BOUND as int,
    ) by {
        assert(is_small(e[i]));
        assert forall|j: int| 0 <= j < ints_of(e[i]).len() implies -(ERROR_BOUND as int) <= (
        #[trigger] ints_of(e[i])[j]) <= ERROR_BOUND by {
            assert(-(ERROR_BOUND as int) <= e[i][j] <= ERROR_BOUND);
        }
    }
    lemma_switch_noise_bound(x, e, ctx.moduli(), n, ERROR_BOUND as int, l);
    assert forall|r: int| 0 <= r < l implies (#[trigger] ctx.ntt(r)).backward_of(
        switch_remainder(c0s, c1s, ctx, a, sk, x)[r],
    ) == residues_of(noise, ctx.moduli()[r]) by {
        lemma_bv_switch(c0s, c1s, ctx, a, sk, e, x, r);
    }
    assert(is_switch_noise(noise, c0s, c1s, ctx, a, sk, x));
}

/// The generator of a digit vanishes under every auxiliary modulus.
pub proof fn lemma_hybrid_generator_vanishes(g: nat, aux: Seq<int>, q: int, digit: int, k: int)
    requires
        0 <= k < aux.len(),
        aux[k] > 0,
        is_hybrid_generator(g, seq_product(aux), q, digit),
    ensures
        (g as int) % aux[k] == 0,
{
    let p = seq_product(aux);
    let x = choose|x: int|
        0 <= x < digit && #[trigger] inverse_of(q / digit, x, digit) && g == p * (q / digit) * x;
    lemma_product_multiple(aux, k);
    let f = choose|f: int| seq_product(aux) == #[trigger] (aux[k] * f);
    assert(p * (q / digit) * x == aux[k] * (f * (q / digit) * x)) by (nonlinear_arith)
        requires
            p == aux[k] * f,
    ;
    lemma_mod_multiples_basic(f * (q / digit) * x, aux[k]);
    lemma_mul_is_commutative(f * (q / digit) * x, aux[k]);
}

/// The first component of a key element of the hybrid variant plus the
/// second times the secret is, at every place of the combined chain, the
/// error plus the generator times the key's polynomial, where the
/// generator vanishes under the auxiliary moduli and the key's polynomial is
/// taken as zero there.
pub proof fn lemma_hybrid_element_residue(
    g: nat,
    a: Seq<Seq<u64>>,
    c1: Seq<Seq<u64>>,
    s: Seq<Seq<u64>>,
    e: Seq<Seq<u64>>,
    moduli: Seq<int>,
    q_count: int,
    n: nat,
    r: int,
    k: int,
)
    requires
        0 <= r < moduli.len(),
        0 < moduli[r] <= u64::MAX,
        0 <= k < n,
        e.len() == moduli.len(),
        c1.len() == moduli.len(),
        a.len() == q_count,
        e[r].len() == n,
        c1[r].len() == n,
        r < q_count ==> a[r].len() == n,
        r >= q_count ==> (g as int) % moduli[r] == 0,
    ensures
        (hybrid_c0_rows(g, a, c1, s, e, moduli, q_count)[r][k] + c1[r][k] * s[r][k]) % moduli[r]
            == (e[r][k] + ((g as int) % moduli[r]) * (if r < q_count {
            a[r][k] as int
        } else {
            0
        })) % moduli[r],
{
    let q = moduli[r];
    let gr = (g as int) % q;
    lemma_mod_bound(g as int, q);
    let cs = (c1[r][k] * s[r][k]) % q;
    lemma_mod_bound(c1[r][k] * s[r][k], q);
    let secret_part = mul_seq(c1[r], s[r], q);
    assert(secret_part[k] == cs);
    let row = hybrid_c0_rows(g, a, c1, s, e, moduli, q_count)[r];
    if r < q_count {
        let scaled = scale_seq(a[r], gr, q);
        let ga = (a[r][k] * gr) % q;
        lemma_mod_bound(a[r][k] * gr, q);
        assert(scaled[k] == ga);
        let with_error = add_seq(e[r], scaled, q);
        let sum = (e[r][k] + ga) % q;
        lemma_mod_bound(e[r][k] + ga, q);
        assert(with_error[k] == sum);
        assert(row == sub_seq(with_error, secret_part, q));
        let c0 = (sum - cs) % q;
        lemma_mod_bound(sum - cs, q);
        assert(row[k] == c0);
        lemma_add_mod_noop_right(c0, c1[r][k] * s[r][k], q);
        lemma_add_mod_noop(sum - cs, cs, q);
        lemma_small_mod(cs as nat, q as nat);
        lemma_mod_twice(e[r][k] + ga, q);
        lemma_add_mod_noop_right(e[r][k] as int, a[r][k] * gr, q);
        lemma_mul_is_commutative(a[r][k] as int, gr);
    } else {
        assert(row == sub_seq(e[r], secret_part, q));
        let c0 = (e[r][k] - cs) % q;
        lemma_mod_bound(e[r][k] - cs, q);
        assert(row[k] == c0);
        lemma_add_mod_noop_right(c0, c1[r][k] * s[r][k], q);
        lemma_add_mod_noop(e[r][k] - cs, cs, q);
        lemma_small_mod(cs as nat, q as nat);
        assert(gr * 0 == 0);
    }
}

} // verus!
