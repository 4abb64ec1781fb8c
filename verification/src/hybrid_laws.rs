//! What a switch with a key of the hybrid variant gives.

use crate::basis::{approx_switch, mod_down};
use crate::basis_laws::{
    has_residues, is_shifted, lemma_common_multiple, lemma_number_exists, lemma_product_concat,
    lemma_switch_approximates,
};
use crate::hybrid_key_switching_key::{
    group_end, group_start, is_hybrid_c0, is_hybrid_element, is_hybrid_generator,
    HybridKeySwitchingKey,
};
use crate::key_switching_key::{accumulated_rows, is_small, rows_of, secret_rows, ERROR_BOUND};
use crate::modulus::{
    add_seq, as_ints, inverse_of, mul_seq, scale_seq, sub_seq, lemma_product_bound, lemma_product_multiple, reduced, seq_product,
};
use crate::ntt::poly_eval;
use crate::ntt_laws::{
    convolution, eval_int, lemma_backward_forward, lemma_eval_int_combination,
    lemma_eval_int_scaled, lemma_forward_backward, lemma_forward_zero, lemma_same_root, lemma_convolution_bound, lemma_convolution_length, lemma_eval_as_ints,
    lemma_eval_convolution, lemma_eval_int_congruent, lemma_eval_int_linear, lemma_eval_zero,
    lemma_odd_power_root, within,
};
use crate::poly::{
    add_rows, backward_rows, forward_rows, mul_rows, residues_in, sub_rows, Poly, PolyContext,
};
use crate::secret_key::is_ternary;
use crate::switching_laws::{
    all_shaped, combined_sum, error_rows, ints_of, lemma_accumulated_value, lemma_combined_sum,
    lemma_eval_reduced_i64, lemma_hybrid_element_residue, lemma_hybrid_generator_vanishes,
    noise_values, products_sum, residues_of, shaped,
};
use vstd::arithmetic::power::pow;
use vstd::arithmetic::div_mod::*;
use vstd::arithmetic::mul::*;
use vstd::prelude::*;

verus! {

/// Under every modulus of `moduli`, coefficient `c` of `rows` is the residue
/// of `number`.
pub open spec fn is_embedded(rows: Seq<Seq<u64>>, moduli: Seq<int>, c: int, number: int) -> bool {
    &&& rows.len() == moduli.len()
    &&& forall|m: int| 0 <= m < moduli.len() ==> (#[trigger] rows[m])[c] == number % moduli[m]
}

/// The moduli of digit `j` of the key.
pub open spec fn digit_moduli(key: HybridKeySwitchingKey, j: int) -> Seq<int> {
    key.source().moduli().subrange(
        group_start(j, key.digits() as int),
        group_end(j, key.digits() as int, key.chain().len() as int),
    )
}

/// An embedded digit stands for one number under the whole combined chain:
/// the number of the digit plus a small multiple of the product of the
/// digit's moduli.
pub proof fn lemma_digit_embedded(key: HybridKeySwitchingKey, x: Seq<Seq<u64>>, j: int, c: int)
    requires
        key.wf(),
        residues_in(x, key.source().moduli(), key.source().n()),
        0 <= j < key.parts(),
        0 <= c < key.source().n(),
    ensures
        exists|number: int|
            0 <= number < digit_moduli(key, j).len() * seq_product(digit_moduli(key, j))
                && #[trigger] is_embedded(
                key.digit_rows(x, j),
                key.combined().moduli(),
                c,
                number,
            ),
{
    key.source().lemma_wf();
    key.aux().lemma_wf();
    key.combined().lemma_wf();
    assert(key.group_wf(j));
    let n = key.source().n();
    let l = key.chain().len() as int;
    let start = group_start(j, key.digits() as int);
    let end = group_end(j, key.digits() as int, l);
    let d = digit_moduli(key, j);
    let len = end - start;
    let targets = key.group_targets(j);
    if targets.len() > 0 {
        key.lemma_target(j, 0);
    } else {
        // the digit still lies in the chain
        assert(j * key.digits() <= (key.parts() - 1) * key.digits()) by (nonlinear_arith)
            requires
                j <= key.parts() - 1,
                key.digits() >= 0,
        ;
        assert(j * key.digits() >= 0) by (nonlinear_arith)
            requires
                j >= 0,
                key.digits() >= 0,
        ;
    }
    let xd = x.subrange(start, end);
    let big = seq_product(d);
    assert forall|i: int| 0 <= i < d.len() implies (#[trigger] d[i]) >= 2 by {
        assert(d[i] == key.source().moduli()[start + i]);
    }
    assert forall|i: int| 0 <= i < d.len() implies xd[i][c] < #[trigger] d[i] by {
        assert(xd[i] == x[start + i]);
        assert(reduced(x[start + i], key.source().moduli()[start + i]));
    }
    lemma_number_exists(xd, d, key.group_hat_inv(j), c);
    let base = choose|number: int| 0 <= number < seq_product(d) && #[trigger] has_residues(number, xd, d, c);
    assert forall|k: int| 0 <= k < targets.len() implies (#[trigger] targets[k]) > 0 by {
        key.lemma_target(j, k);
    }
    lemma_switch_approximates(
        xd,
        d,
        key.group_hat_inv(j),
        key.group_hat_modp(j),
        targets,
        n,
        c,
        base,
    );
    let switched = approx_switch(xd, d, key.group_hat_inv(j), key.group_hat_modp(j), targets, n);
    let v = choose|v: int| 0 <= v < d.len() && #[trigger] is_shifted(switched, targets, c, base, big, v);
    let number = base + v * big;
    lemma_product_bound(d, 0);
    assert(0 <= number < d.len() * big) by (nonlinear_arith)
        requires
            0 <= base < big,
            0 <= v < d.len(),
            number == base + v * big,
    ;
    let rows = key.digit_rows(x, j);
    let moduli = key.combined().moduli();
    assert(targets.len() == moduli.len() - len);
    assert forall|m: int| 0 <= m < moduli.len() implies (#[trigger] rows[m])[c] == number % moduli[m] by {
        if m < start {
            key.lemma_target(j, m);
            assert(rows[m] == switched[m]);
        } else if m < end {
            assert(rows[m] == x[m]);
            assert(xd[m - start] == x[m]);
            assert(d[m - start] == moduli[m]);
            lemma_product_multiple(d, m - start);
            let f = choose|f: int| seq_product(d) == #[trigger] (d[m - start] * f);
            assert(v * big == moduli[m] * (f * v)) by (nonlinear_arith)
                requires
                    big == moduli[m] * f,
            ;
            lemma_mod_multiples_vanish(f * v, base, moduli[m]);
        } else {
            key.lemma_target(j, m - len);
            assert(rows[m] == switched[m - len]);
        }
    }
    assert(rows.len() == moduli.len());
    assert(is_embedded(rows, moduli, c, number));
}

/// The generator of a digit leaves the auxiliary product under the moduli of
/// the digit and zero under the other moduli of the chain.
pub proof fn lemma_hybrid_generator_residue(
    g: nat,
    aux_product: int,
    source: Seq<int>,
    start: int,
    end: int,
    i: int,
)
    requires
        0 <= start < end <= source.len(),
        0 <= i < source.len(),
        forall|l: int| 0 <= l < source.len() ==> (#[trigger] source[l]) >= 2,
        is_hybrid_generator(
            g,
            aux_product,
            seq_product(source),
            seq_product(source.subrange(start, end)),
        ),
    ensures
        (g as int) % source[i] == if start <= i < end {
            aux_product % source[i]
        } else {
            0
        },
{
    let d = source.subrange(start, end);
    let digit = seq_product(d);
    let big = seq_product(source);
    let hat = big / digit;
    let x = choose|x: int|
        0 <= x < digit && #[trigger] inverse_of(hat, x, digit) && g == aux_product * hat * x;
    let q = source[i];
    assert forall|l: int| 0 <= l < d.len() implies (#[trigger] d[l]) >= 2 by {
        assert(d[l] == source[start + l]);
    }
    lemma_product_bound(d, 0);
    if start <= i < end {
        lemma_product_multiple(d, i - start);
        let f = choose|f: int| seq_product(d) == #[trigger] (d[i - start] * f);
        lemma_fundamental_div_mod(hat * x, digit);
        let t = (hat * x) / digit;
        assert(hat * x == q * (f * t) + 1) by (nonlinear_arith)
            requires
                hat * x == digit * t + 1,
                digit == q * f,
        ;
        assert(aux_product * hat * x == q * (aux_product * (f * t)) + aux_product)
            by (nonlinear_arith)
            requires
                hat * x == q * (f * t) + 1,
        ;
        lemma_mod_multiples_vanish(aux_product * (f * t), aux_product, q);
    } else {
        // the product of the other digits holds the modulus
        let before = source.take(start);
        let after = source.skip(end);
        assert(source =~= (before + d) + after);
        lemma_product_concat(before + d, after);
        lemma_product_concat(before, d);
        let pb = seq_product(before);
        let pa = seq_product(after);
        assert((pb * digit) * pa == digit * (pb * pa)) by (nonlinear_arith);
        lemma_div_multiples_vanish(pb * pa, digit);
        assert(hat == pb * pa);
        if i < start {
            lemma_product_multiple(before, i);
            let f = choose|f: int| seq_product(before) == #[trigger] (before[i] * f);
            assert(aux_product * (pb * pa) * x == q * (aux_product * (f * pa) * x))
                by (nonlinear_arith)
                requires
                    pb == q * f,
            ;
            lemma_mod_multiples_basic(aux_product * (f * pa) * x, q);
            lemma_mul_is_commutative(aux_product * (f * pa) * x, q);
        } else {
            lemma_product_multiple(after, i - end);
            let f = choose|f: int| seq_product(after) == #[trigger] (after[i - end] * f);
            assert(aux_product * (pb * pa) * x == q * (aux_product * (pb * f) * x))
                by (nonlinear_arith)
                requires
                    pa == q * f,
            ;
            lemma_mod_multiples_basic(aux_product * (pb * f) * x, q);
            lemma_mul_is_commutative(aux_product * (pb * f) * x, q);
        }
    }
}

/// The sum over the first `upto` digits of the negacyclic product of the
/// numbers of the digit with the errors of its key element.
pub open spec fn digits_noise(u: Seq<Seq<int>>, e: Seq<Seq<i64>>, n: nat, upto: nat) -> Seq<int>
    decreases upto,
{
    if upto == 0 {
        Seq::new(n, |k: int| 0int)
    } else {
        Seq::new(
            n,
            |k: int|
                digits_noise(u, e, n, (upto - 1) as nat)[k] + convolution(
                    u[upto - 1],
                    ints_of(e[upto - 1]),
                    n,
                )[k],
        )
    }
}

/// The sum of the first `upto` bounds.
pub open spec fn bounds_sum(bounds: Seq<int>, upto: nat) -> int
    decreases upto,
{
    if upto == 0 {
        0
    } else {
        bounds_sum(bounds, (upto - 1) as nat) + bounds[upto - 1]
    }
}

/// The noise of the digits lies within the degree times the bound of the
/// errors times the sum of the bounds of the digits.
pub proof fn lemma_digits_noise_bound(
    u: Seq<Seq<int>>,
    e: Seq<Seq<i64>>,
    bounds: Seq<int>,
    n: nat,
    bound: int,
    upto: nat,
)
    requires
        upto <= u.len(),
        u.len() == e.len(),
        u.len() == bounds.len(),
        bound >= 0,
        forall|i: int| 0 <= i < u.len() ==> (#[trigger] bounds[i]) >= 0,
        forall|i: int| 0 <= i < u.len() ==> (#[trigger] u[i]).len() == n && within(u[i], bounds[i]),
        forall|i: int| 0 <= i < e.len() ==> (#[trigger] e[i]).len() == n && within(ints_of(e[i]), bound),
    ensures
        digits_noise(u, e, n, upto).len() == n,
        within(digits_noise(u, e, n, upto), n * (bound * bounds_sum(bounds, upto))),
        bounds_sum(bounds, upto) >= 0,
    decreases upto,
{
    if upto == 0 {
        assert(n * (bound * 0) == 0) by (nonlinear_arith);
    } else {
        let i = (upto - 1) as int;
        lemma_digits_noise_bound(u, e, bounds, n, bound, i as nat);
        let a = u[i];
        let b = ints_of(e[i]);
        lemma_convolution_bound(a, b, n, bounds[i], bound);
        let total = digits_noise(u, e, n, upto);
        let before = digits_noise(u, e, n, i as nat);
        let conv = convolution(a, b, n);
        let s0 = bounds_sum(bounds, i as nat);
        assert(n * (bound * (s0 + bounds[i])) == n * (bound * s0) + n * (bounds[i] * bound))
            by (nonlinear_arith);
        assert forall|k: int| 0 <= k < total.len() implies -(n * (bound * bounds_sum(bounds, upto)))
            <= (#[trigger] total[k]) <= n * (bound * bounds_sum(bounds, upto)) by {
            assert(-(n * (bound * s0)) <= before[k] <= n * (bound * s0));
            assert(-(n * (bounds[i] * bound)) <= conv[k] <= n * (bounds[i] * bound));
        }
    }
}

/// The errors times the digits sum, at every place, to the value of the
/// noise of the digits at the root of the place, where every digit stands
/// for its numbers under the modulus of the place.
pub proof fn lemma_digits_noise_values(
    u: Seq<Seq<int>>,
    e: Seq<Seq<i64>>,
    digits: Seq<Seq<Seq<u64>>>,
    terms: Seq<Seq<Seq<u64>>>,
    ctx: PolyContext,
    r: int,
    k: int,
    upto: nat,
)
    requires
        ctx.wf(),
        upto <= u.len(),
        u.len() == e.len(),
        u.len() == digits.len(),
        u.len() == terms.len(),
        0 <= r < ctx.moduli().len(),
        0 <= k < ctx.n(),
        forall|i: int| 0 <= i < u.len() ==> (#[trigger] u[i]).len() == ctx.n(),
        forall|i: int| 0 <= i < e.len() ==> (#[trigger] e[i]).len() == ctx.n(),
        forall|i: int|
            0 <= i < digits.len() ==> (#[trigger] digits[i]).len() == ctx.moduli().len()
                && digits[i][r].len() == ctx.n() && terms[i] == forward_rows(digits[i], ctx),
        forall|i: int, c: int|
            0 <= i < digits.len() && 0 <= c < ctx.n() ==> (#[trigger] digits[i][r][c]) == u[i][c]
                % ctx.moduli()[r],
    ensures
        digits_noise(u, e, ctx.n(), upto).len() == ctx.n(),
        noise_values(e, terms, ctx, r, k, upto) % ctx.moduli()[r] == eval_int(
            digits_noise(u, e, ctx.n(), upto),
            pow(ctx.ntt(r).root(), (2 * k + 1) as nat),
        ) % ctx.moduli()[r],
    decreases upto,
{
    ctx.lemma_wf();
    let n = ctx.n();
    let q = ctx.moduli()[r];
    let op = ctx.ntt(r);
    let point = pow(op.root(), (2 * k + 1) as nat);
    if upto == 0 {
        lemma_eval_zero(n, point);
    } else {
        let i = (upto - 1) as int;
        lemma_digits_noise_values(u, e, digits, terms, ctx, r, k, i as nat);
        let a = u[i];
        let b = ints_of(e[i]);
        let conv = convolution(a, b, n);
        lemma_convolution_length(a, b, n);
        let ev = error_rows(e[i], ctx)[r][k] as int;
        let tv = terms[i][r][k] as int;
        lemma_eval_reduced_i64(e[i], point, q);
        lemma_mod_bound(poly_eval(crate::modulus::reduce_i64_seq(e[i], q), point), q);
        assert(ev == poly_eval(crate::modulus::reduce_i64_seq(e[i], q), point) % q);
        // the digit at the place is the value of its numbers
        let row = digits[i][r];
        assert(terms[i][r] == op.forward_of(row));
        lemma_mod_bound(poly_eval(row, point), q);
        assert(tv == poly_eval(row, point) % q);
        lemma_eval_as_ints(row, point);
        assert forall|c: int| 0 <= c < as_ints(row).len() implies (#[trigger] as_ints(row)[c]) % q
            == a[c] % q by {
            assert(digits[i][r][c] == u[i][c] % q);
            lemma_mod_twice(a[c], q);
        }
        lemma_eval_int_congruent(as_ints(row), a, point, q);
        // the product is the value of the negacyclic product
        lemma_odd_power_root(op.root(), n, k as nat, q);
        assert(a.take(n as int) =~= a);
        lemma_eval_convolution(a, b, n, point, q);
        lemma_mul_mod_noop_general(eval_int(b, point), eval_int(a, point), q);
        lemma_mul_mod_noop_general(ev, tv, q);
        lemma_mul_is_commutative(eval_int(a, point), eval_int(b, point));
        lemma_mod_twice(eval_int(b, point), q);
        lemma_mod_twice(eval_int(a, point), q);
        assert((ev * tv) % q == eval_int(conv, point) % q);
        let total = digits_noise(u, e, n, upto);
        let before = digits_noise(u, e, n, i as nat);
        assert forall|j: int| 0 <= j < total.len() implies (#[trigger] total[j]) % q == (before[j]
            + 1 * conv[j]) % q by {
            assert(1 * conv[j] == conv[j]);
        }
        lemma_eval_int_linear(total, before, conv, 1, point, q);
        assert(1 * eval_int(conv, point) == eval_int(conv, point));
        lemma_add_mod_noop(noise_values(e, terms, ctx, r, k, i as nat), ev * tv, q);
        lemma_add_mod_noop(eval_int(before, point), eval_int(conv, point), q);
    }
}

/// The hypotheses of the law of the switch: a key whose element `j` is
/// built on the generator `g[j]` of digit `j`, the polynomial `a`, the secret
/// `sk` and the errors `e[j]`.
pub open spec fn is_hybrid_key(
    key: HybridKeySwitchingKey,
    g: Seq<nat>,
    a: Seq<Seq<u64>>,
    sk: Seq<i64>,
    e: Seq<Seq<i64>>,
) -> bool {
    &&& key.wf()
    &&& g.len() == key.parts()
    &&& e.len() == key.parts()
    &&& residues_in(a, key.source().moduli(), key.source().n())
    &&& forall|j: int| 0 <= j < e.len() ==> (#[trigger] e[j]).len() == key.source().n()
    &&& forall|j: int|
        0 <= j < key.parts() ==> is_hybrid_generator(
            #[trigger] g[j],
            seq_product(key.aux().moduli()),
            seq_product(key.source().moduli()),
            seq_product(digit_moduli(key, j)),
        )
    &&& forall|j: int|
        0 <= j < key.parts() ==> is_hybrid_c0(
            #[trigger] key.c0_polys()[j],
            g[j],
            a,
            key.c1_polys()[j].rows(),
            sk,
            e[j],
            key.combined(),
            key.chain().len() as int,
        )
}

/// Row `r` belongs to digit `j`.
pub open spec fn in_digit(key: HybridKeySwitchingKey, r: int, j: int) -> bool {
    group_start(j, key.digits() as int) <= r < group_end(
        j,
        key.digits() as int,
        key.chain().len() as int,
    )
}

/// The sum over the first `upto` digits of the auxiliary product times the
/// key's polynomial times the digit, where the row belongs to the digit.
pub open spec fn own_sum(
    key: HybridKeySwitchingKey,
    a: Seq<Seq<u64>>,
    terms: Seq<Seq<Seq<u64>>>,
    r: int,
    k: int,
    upto: nat,
) -> int
    decreases upto,
{
    if upto == 0 {
        0
    } else {
        own_sum(key, a, terms, r, k, (upto - 1) as nat) + if in_digit(key, r, upto - 1) {
            seq_product(key.aux().moduli()) * a[r][k] * terms[upto - 1][r][k]
        } else {
            0
        }
    }
}

/// The combined products of a key are, at every place of the combined
/// chain, the errors times the digits plus, under the moduli of the source
/// chain, the auxiliary product times the key's polynomial times the digit
/// that the row belongs to.
pub proof fn lemma_hybrid_combined_value(
    key: HybridKeySwitchingKey,
    g: Seq<nat>,
    a: Seq<Seq<u64>>,
    sk: Seq<i64>,
    e: Seq<Seq<i64>>,
    terms: Seq<Seq<Seq<u64>>>,
    r: int,
    k: int,
    upto: nat,
)
    requires
        is_hybrid_key(key, g, a, sk, e),
        upto <= key.parts(),
        0 <= r < key.combined().moduli().len(),
        0 <= k < key.source().n(),
    ensures
        combined_sum(
            rows_of(key.c0_polys()),
            rows_of(key.c1_polys()),
            terms,
            secret_rows(sk, key.combined()),
            r,
            k,
            upto,
        ) % key.combined().moduli()[r] == (noise_values(e, terms, key.combined(), r, k, upto)
            + own_sum(key, a, terms, r, k, upto)) % key.combined().moduli()[r],
    decreases upto,
{
    let ctx = key.combined();
    key.source().lemma_wf();
    key.aux().lemma_wf();
    ctx.lemma_wf();
    let q = ctx.moduli()[r];
    let n = key.source().n();
    let l = key.chain().len() as int;
    let s = secret_rows(sk, ctx);
    if upto > 0 {
        let j = (upto - 1) as int;
        lemma_hybrid_combined_value(key, g, a, sk, e, terms, r, k, j as nat);
        let errors = error_rows(e[j], ctx);
        let c1 = key.c1_polys()[j].rows();
        let big = seq_product(key.aux().moduli());
        assert(is_hybrid_c0(key.c0_polys()[j], g[j], a, c1, sk, e[j], ctx, l));
        assert(key.c1_polys()[j].wf());
        assert(e[j].len() == n);
        assert(errors.len() == ctx.moduli().len());
        assert(errors[r].len() == n);
        let start = group_start(j, key.digits() as int);
        let end = group_end(j, key.digits() as int, l);
        assert(0 <= start < end <= l) by {
            assert(j * key.digits() <= (key.parts() - 1) * key.digits()) by (nonlinear_arith)
                requires
                    j <= key.parts() - 1,
                    key.digits() >= 0,
            ;
            assert(j * key.digits() >= 0) by (nonlinear_arith)
                requires
                    j >= 0,
                    key.digits() >= 0,
            ;
        }
        if r >= l {
            assert(ctx.moduli()[r] == key.aux().moduli()[r - l]);
            lemma_hybrid_generator_vanishes(
                g[j],
                key.aux().moduli(),
                seq_product(key.source().moduli()),
                seq_product(digit_moduli(key, j)),
                r - l,
            );
        } else {
            assert(ctx.moduli()[r] == key.source().moduli()[r]);
            assert(a[r].len() == n);
            lemma_hybrid_generator_residue(g[j], big, key.source().moduli(), start, end, r);
        }
        lemma_hybrid_element_residue(g[j], a, c1, s, errors, ctx.moduli(), l, n, r, k);
        let t = terms[j][r][k] as int;
        let c0v = key.c0_polys()[j].rows()[r][k] as int;
        let left = c0v + c1[r][k] * s[r][k];
        let own = if in_digit(key, r, j) {
            big * a[r][k]
        } else {
            0
        };
        let right = errors[r][k] + own;
        assert(left % q == right % q) by {
            let gr = (g[j] as int) % q;
            if r < l {
                if in_digit(key, r, j) {
                    lemma_mul_mod_noop_general(big, a[r][k] as int, q);
                    lemma_mul_mod_noop_general(gr, a[r][k] as int, q);
                    lemma_mod_twice(big, q);
                    lemma_add_mod_noop_right(errors[r][k] as int, gr * a[r][k], q);
                    lemma_add_mod_noop_right(errors[r][k] as int, big * a[r][k], q);
                } else {
                    assert(0 * a[r][k] == 0);
                }
            } else {
                assert(gr * 0 == 0);
            }
        }
        lemma_mul_mod_noop_general(left, t, q);
        lemma_mul_mod_noop_general(right, t, q);
        let before = combined_sum(
            rows_of(key.c0_polys()),
            rows_of(key.c1_polys()),
            terms,
            s,
            r,
            k,
            j as nat,
        );
        let target_before = noise_values(e, terms, ctx, r, k, j as nat) + own_sum(
            key,
            a,
            terms,
            r,
            k,
            j as nat,
        );
        lemma_add_mod_noop(before, left * t, q);
        lemma_add_mod_noop(target_before, right * t, q);
        assert(rows_of(key.c0_polys())[j] == key.c0_polys()[j].rows());
        assert(rows_of(key.c1_polys())[j] == key.c1_polys()[j].rows());
        assert(right * t == errors[r][k] * t + if in_digit(key, r, j) {
            big * a[r][k] * t
        } else {
            0
        }) by (nonlinear_arith)
            requires
                right == errors[r][k] + own,
                own == if in_digit(key, r, j) {
                    big * a[r][k]
                } else {
                    0
                },
        ;
    }
}

/// The first row that the first `upto` digits do not hold.
pub open spec fn covered(key: HybridKeySwitchingKey, upto: nat) -> int {
    if upto == 0 {
        0
    } else {
        group_end(upto - 1, key.digits() as int, key.chain().len() as int)
    }
}

/// The digits hold the rows of the chain one after the other: under a
/// modulus of the source chain the sum over the digits that hold the row has
/// one term, the auxiliary product times the key's polynomial times the
/// transformed row of the input.
pub proof fn lemma_own_sum(
    key: HybridKeySwitchingKey,
    a: Seq<Seq<u64>>,
    x: Seq<Seq<u64>>,
    r: int,
    k: int,
    upto: nat,
)
    requires
        key.wf(),
        residues_in(x, key.source().moduli(), key.source().n()),
        upto <= key.parts(),
        0 <= r < key.combined().moduli().len(),
        0 <= k < key.source().n(),
    ensures
        0 <= covered(key, upto) <= key.chain().len(),
        upto == key.parts() ==> covered(key, upto) == key.chain().len(),
        own_sum(key, a, key.terms(x), r, k, upto) == if r < covered(key, upto) {
            seq_product(key.aux().moduli()) * a[r][k] * forward_rows(x, key.source())[r][k]
        } else {
            0
        },
    decreases upto,
{
    key.source().lemma_wf();
    key.aux().lemma_wf();
    key.combined().lemma_wf();
    let d = key.digits() as int;
    let l = key.chain().len() as int;
    if upto > 0 {
        let j = (upto - 1) as int;
        lemma_own_sum(key, a, x, r, k, j as nat);
        assert(j * d <= (key.parts() - 1) * d) by (nonlinear_arith)
            requires
                j <= key.parts() - 1,
                d >= 0,
        ;
        assert(j * d >= 0) by (nonlinear_arith)
            requires
                j >= 0,
                d >= 0,
        ;
        let start = group_start(j, d);
        let end = group_end(j, d, l);
        // the digit begins where the digits before it end
        if j > 0 {
            assert((j - 1) * d + d == j * d) by (nonlinear_arith);
            assert((j - 1) * d <= (key.parts() - 1) * d) by (nonlinear_arith)
                requires
                    j - 1 <= key.parts() - 1,
                    d >= 0,
            ;
        } else {
            assert(0 * d == 0);
        }
        assert(covered(key, j as nat) == start);
        assert(start < end <= l);
        assert(covered(key, upto) == end);
        let value = seq_product(key.aux().moduli()) * a[r][k] * forward_rows(x, key.source())[r][k];
        assert(own_sum(key, a, key.terms(x), r, k, j as nat) == if r < start {
            value
        } else {
            0
        });
        if upto == key.parts() {
            assert(l <= j * d + d) by (nonlinear_arith)
                requires
                    l <= key.parts() * d,
                    key.parts() == j + 1,
            ;
        }
        if in_digit(key, r, j) {
            // the row of the digit is the row of the input
            let rows = key.digit_rows(x, j);
            assert(key.group_wf(j));
            assert(key.group_targets(j).len() == l - (end - start) + key.aux_chain().len());
            assert(rows.len() == key.combined().moduli().len());
            assert(rows[r] == x[r]);
            let term = key.terms(x)[j];
            assert(term == forward_rows(rows, key.combined()));
            assert(term[r] == key.combined().ntt(r).forward_of(rows[r]));
            assert(key.combined().moduli()[r] == key.source().moduli()[r]);
            lemma_same_root(key.combined().ntt(r), key.source().ntt(r));
            assert(term[r] == forward_rows(x, key.source())[r]);
        }
    }
}

/// Under every one of the first moduli, coefficient `c` of `out` is the
/// residue of the inverse times the residue under that modulus less `number`.
pub open spec fn is_divided(
    out: Seq<Seq<u64>>,
    x: Seq<Seq<u64>>,
    q: Seq<int>,
    p_inv_modq: Seq<u64>,
    c: int,
    number: int,
) -> bool {
    forall|i: int|
        0 <= i < q.len() ==> (#[trigger] out[i])[c] == (p_inv_modq[i] * (x[i][c] - number)) % q[i]
}

/// Bringing down subtracts a number with the auxiliary residues and divides:
/// there are a number below the auxiliary product with the residues of the
/// auxiliary rows, and a count below the number of auxiliary moduli, such
/// that every row of the result is the row of the input less the number and
/// less the count times the product, times the inverse of the product.
pub proof fn lemma_mod_down_subtracts(
    x: Seq<Seq<u64>>,
    q: Seq<int>,
    p: Seq<int>,
    p_hat_inv_modp: Seq<u64>,
    p_hat_modq: Seq<Seq<u64>>,
    p_inv_modq: Seq<u64>,
    n: nat,
    c: int,
)
    requires
        q.len() >= 1,
        p.len() >= 1,
        x.len() == q.len() + p.len(),
        0 <= c < n,
        forall|i: int| 0 <= i < q.len() ==> 2 <= (#[trigger] q[i]) <= u64::MAX,
        forall|k: int| 0 <= k < p.len() ==> (#[trigger] p[k]) >= 2,
        forall|i: int| 0 <= i < x.len() ==> (#[trigger] x[i]).len() == n,
        forall|k: int| 0 <= k < p.len() ==> x[q.len() + k][c] < #[trigger] p[k],
        forall|k: int|
            0 <= k < p.len() ==> inverse_of(
                seq_product(p) / #[trigger] p[k],
                p_hat_inv_modp[k] as int,
                p[k],
            ),
        forall|k: int, i: int|
            0 <= k < p.len() && 0 <= i < q.len() ==> (#[trigger] p_hat_modq[k][i]) == (seq_product(
                p,
            ) / p[k]) % q[i],
    ensures
        exists|rest: int, w: int|
            0 <= rest < seq_product(p) && 0 <= w < p.len() && has_residues(
                rest,
                x.subrange(q.len() as int, x.len() as int),
                p,
                c,
            ) && #[trigger] is_divided(
                mod_down(x, q, p, p_hat_inv_modp, p_hat_modq, p_inv_modq, n),
                x,
                q,
                p_inv_modq,
                c,
                rest + w * seq_product(p),
            ),
{
    let big = seq_product(p);
    let tail = x.subrange(q.len() as int, x.len() as int);
    let targets = Seq::new(q.len(), |i: int| q[i] as u64);
    assert forall|k: int| 0 <= k < p.len() implies tail[k][c] < #[trigger] p[k] by {
        assert(tail[k] == x[q.len() + k]);
    }
    lemma_number_exists(tail, p, p_hat_inv_modp, c);
    let rest = choose|rest: int| 0 <= rest < seq_product(p) && #[trigger] has_residues(rest, tail, p, c);
    assert forall|l: int, k: int| 0 <= l < p.len() && 0 <= k < targets.len() implies (
    #[trigger] p_hat_modq[l][k]) == (seq_product(p) / p[l]) % (targets[k] as int) by {
        assert(targets[k] == q[k]);
    }
    assert forall|k: int| 0 <= k < targets.len() implies (#[trigger] targets[k]) > 0 by {
        assert(q[k] >= 2);
    }
    lemma_switch_approximates(tail, p, p_hat_inv_modp, p_hat_modq, targets, n, c, rest);
    let switched = approx_switch(tail, p, p_hat_inv_modp, p_hat_modq, targets, n);
    let w = choose|w: int| 0 <= w < p.len() && #[trigger] is_shifted(switched, targets, c, rest, big, w);
    let out = mod_down(x, q, p, p_hat_inv_modp, p_hat_modq, p_inv_modq, n);
    let number = rest + w * big;
    assert forall|i: int| 0 <= i < q.len() implies (#[trigger] out[i])[c] == (p_inv_modq[i] * (x[i][c]
        - number)) % q[i] by {
        let qi = q[i];
        let inv = p_inv_modq[i] as int;
        assert(targets[i] == qi);
        assert(switched[i][c] == number % qi);
        lemma_mod_bound(number, qi);
        let diff = (x[i][c] - switched[i][c]) % qi;
        lemma_mod_bound(x[i][c] - switched[i][c], qi);
        let lowered = sub_seq(x[i], switched[i], qi);
        assert(lowered[c] == diff);
        assert(out[i] == scale_seq(lowered, inv, qi));
        assert(out[i][c] == (diff * inv) % qi);
        lemma_sub_mod_noop_right(x[i][c] as int, number, qi);
        lemma_mul_mod_noop_general(x[i][c] - number, inv, qi);
        lemma_mul_is_commutative(x[i][c] - number, inv);
    }
    assert(is_divided(out, x, q, p_inv_modq, c, number));
}

/// Sums of congruent numbers are congruent.
pub proof fn lemma_congruent_add(a: int, b: int, c: int, d: int, q: int)
    requires
        q > 0,
        a % q == b % q,
        c % q == d % q,
    ensures
        (a + c) % q == (b + d) % q,
        (a - c) % q == (b - d) % q,
{
    lemma_add_mod_noop(a, c, q);
    lemma_add_mod_noop(b, d, q);
    lemma_sub_mod_noop(a, c, q);
    lemma_sub_mod_noop(b, d, q);
}

/// Products of congruent numbers are congruent.
pub proof fn lemma_congruent_mul(a: int, b: int, c: int, d: int, q: int)
    requires
        q > 0,
        a % q == b % q,
        c % q == d % q,
    ensures
        (a * c) % q == (b * d) % q,
{
    lemma_mul_mod_noop_general(a, c, q);
    lemma_mul_mod_noop_general(b, d, q);
}

/// The arithmetic of the switch at one place: from what bringing down
/// gives of the two sums, what the two sums are under the secret, and what
/// what is to be subtracted is a multiple of, to what is left.
pub proof fn lemma_hybrid_place(
    q: int,
    p: int,
    pinv: int,
    acc0: int,
    acc1: int,
    s: int,
    o0: int,
    o1: int,
    er0: int,
    er1: int,
    ew0: int,
    ew1: int,
    en: int,
    ax: int,
    ers: int,
    ews: int,
    em: int,
    enoise: int,
)
    requires
        q > 0,
        (p * pinv) % q == 1,
        o0 % q == (pinv * (acc0 - (er0 + ew0 * p))) % q,
        o1 % q == (pinv * (acc1 - (er1 + ew1 * p))) % q,
        (acc0 + acc1 * s) % q == (en + p * ax) % q,
        ers % q == (er1 * s) % q,
        ews % q == (ew1 * s) % q,
        (p * em) % q == (en - er0 - ers) % q,
        enoise % q == (em - ew0 - ews) % q,
    ensures
        (o0 + o1 * s - ax) % q == enoise % q,
{
    // the two results under the secret
    lemma_congruent_mul(o1, pinv * (acc1 - (er1 + ew1 * p)), s, s, q);
    lemma_congruent_add(
        o0,
        pinv * (acc0 - (er0 + ew0 * p)),
        o1 * s,
        (pinv * (acc1 - (er1 + ew1 * p))) * s,
        q,
    );
    let inner = (acc0 + acc1 * s) - (er0 + er1 * s) - p * (ew0 + ew1 * s);
    assert(pinv * (acc0 - (er0 + ew0 * p)) + (pinv * (acc1 - (er1 + ew1 * p))) * s == pinv * inner)
        by (nonlinear_arith)
        requires
            inner == (acc0 + acc1 * s) - (er0 + er1 * s) - p * (ew0 + ew1 * s),
    ;
    assert((o0 + o1 * s) % q == (pinv * inner) % q);
    // the inner sum is the product times what is left plus the key's part
    lemma_congruent_add(er0, er0, er1 * s, ers, q);
    lemma_congruent_add(acc0 + acc1 * s, en + p * ax, er0 + er1 * s, er0 + ers, q);
    lemma_congruent_add(ew0, ew0, ew1 * s, ews, q);
    lemma_congruent_mul(p, p, ew0 + ew1 * s, ew0 + ews, q);
    lemma_congruent_add(
        (acc0 + acc1 * s) - (er0 + er1 * s),
        (en + p * ax) - (er0 + ers),
        p * (ew0 + ew1 * s),
        p * (ew0 + ews),
        q,
    );
    let second = (en + p * ax) - (er0 + ers) - p * (ew0 + ews);
    assert(inner % q == second % q);
    let rest = em + ax - ew0 - ews;
    assert(second == (en - er0 - ers) + p * (ax - ew0 - ews)) by (nonlinear_arith)
        requires
            second == (en + p * ax) - (er0 + ers) - p * (ew0 + ews),
    ;
    lemma_congruent_add(en - er0 - ers, p * em, p * (ax - ew0 - ews), p * (ax - ew0 - ews), q);
    assert(p * em + p * (ax - ew0 - ews) == p * rest) by (nonlinear_arith)
        requires
            rest == em + ax - ew0 - ews,
    ;
    assert(inner % q == (p * rest) % q);
    lemma_congruent_mul(pinv, pinv, inner, p * rest, q);
    assert(pinv * (p * rest) == (p * pinv) * rest) by (nonlinear_arith);
    lemma_mul_mod_noop_general(p * pinv, rest, q);
    assert(1 * (rest % q) == rest % q);
    lemma_mod_twice(rest, q);
    assert((o0 + o1 * s) % q == rest % q);
    lemma_congruent_add(o0 + o1 * s, rest, ax, ax, q);
    assert(rest - ax == em - ew0 - ews);
}

/// The sum of the products of the key's polynomials `keys` with the digits
/// of `x`, over the combined chain.
pub open spec fn hybrid_sum(key: HybridKeySwitchingKey, keys: Seq<Poly>, x: Seq<Seq<u64>>) -> Seq<
    Seq<u64>,
> {
    accumulated_rows(rows_of(keys), key.terms(x), key.combined().moduli(), key.parts())
}

/// The bound of the numbers that digit `j` stands for: the number of its
/// moduli times their product.
pub open spec fn digit_bound(key: HybridKeySwitchingKey, j: int) -> int {
    digit_moduli(key, j).len() * seq_product(digit_moduli(key, j))
}

/// The numbers `u` are what the digits of `x` stand for: digit `j` at
/// coefficient `c` is `u[j][c]` under every modulus of the combined chain.
pub open spec fn digits_stand_for(key: HybridKeySwitchingKey, x: Seq<Seq<u64>>, u: Seq<Seq<int>>) -> bool {
    &&& u.len() == key.parts()
    &&& forall|j: int| 0 <= j < u.len() ==> (#[trigger] u[j]).len() == key.source().n()
    &&& forall|j: int, c: int|
        0 <= j < u.len() && 0 <= c < key.source().n() ==> 0 <= (#[trigger] u[j][c]) < digit_bound(
            key,
            j,
        ) && is_embedded(key.digit_rows(x, j), key.combined().moduli(), c, u[j][c])
}

/// The two sums of a switch are, under the secret and at every place of
/// the combined chain, the value of the noise of the digits plus, under the
/// moduli of the source chain, the auxiliary product times the key's
/// polynomial times the input.
pub proof fn lemma_hybrid_sum_values(
    key: HybridKeySwitchingKey,
    g: Seq<nat>,
    a: Seq<Seq<u64>>,
    sk: Seq<i64>,
    e: Seq<Seq<i64>>,
    x: Seq<Seq<u64>>,
    u: Seq<Seq<int>>,
    r: int,
    k: int,
)
    requires
        is_hybrid_key(key, g, a, sk, e),
        residues_in(x, key.source().moduli(), key.source().n()),
        digits_stand_for(key, x, u),
        0 <= r < key.combined().moduli().len(),
        0 <= k < key.source().n(),
    ensures
        hybrid_sum(key, key.c0_polys(), x).len() == key.combined().moduli().len(),
        hybrid_sum(key, key.c1_polys(), x).len() == key.combined().moduli().len(),
        hybrid_sum(key, key.c0_polys(), x)[r].len() == key.source().n(),
        hybrid_sum(key, key.c1_polys(), x)[r].len() == key.source().n(),
        hybrid_sum(key, key.c0_polys(), x)[r][k] < key.combined().moduli()[r],
        hybrid_sum(key, key.c1_polys(), x)[r][k] < key.combined().moduli()[r],
        (hybrid_sum(key, key.c0_polys(), x)[r][k] + hybrid_sum(key, key.c1_polys(), x)[r][k]
            * secret_rows(sk, key.combined())[r][k]) % key.combined().moduli()[r] == (eval_int(
            digits_noise(u, e, key.source().n(), key.parts()),
            pow(key.combined().ntt(r).root(), (2 * k + 1) as nat),
        ) + if r < key.chain().len() {
            seq_product(key.aux().moduli()) * a[r][k] * forward_rows(x, key.source())[r][k]
        } else {
            0
        }) % key.combined().moduli()[r],
{
    let ctx = key.combined();
    key.source().lemma_wf();
    key.aux().lemma_wf();
    ctx.lemma_wf();
    let m = ctx.moduli();
    let total = m.len();
    let n = key.source().n();
    let q = m[r];
    let parts = key.parts();
    let terms = key.terms(x);
    let digits = Seq::new(parts, |j: int| key.digit_rows(x, j));
    let k0 = rows_of(key.c0_polys());
    let k1 = rows_of(key.c1_polys());
    let s = secret_rows(sk, ctx);
    // the shapes
    assert forall|j: int| 0 <= j < parts implies (#[trigger] digits[j]).len() == total
        && digits[j][r].len() == n && terms[j] == forward_rows(digits[j], ctx) && shaped(
        terms[j],
        total,
        n,
    ) by {
        assert(is_embedded(key.digit_rows(x, j), m, 0, u[j][0]));
        lemma_digit_shape(key, x, j);
    }
    assert(all_shaped(terms, total, n)) by {
        assert forall|j: int| 0 <= j < terms.len() implies shaped(#[trigger] terms[j], total, n) by {
            lemma_digit_shape(key, x, j);
        }
    }
    assert(all_shaped(k0, total, n)) by {
        assert forall|j: int| 0 <= j < k0.len() implies shaped(#[trigger] k0[j], total, n) by {
            assert(key.c0_polys()[j].wf());
        }
    }
    assert(all_shaped(k1, total, n)) by {
        assert forall|j: int| 0 <= j < k1.len() implies shaped(#[trigger] k1[j], total, n) by {
            assert(key.c1_polys()[j].wf());
        }
    }
    lemma_accumulated_value(k0, terms, m, n, parts, r, k);
    lemma_accumulated_value(k1, terms, m, n, parts, r, k);
    let p0 = products_sum(k0, terms, r, k, parts);
    let p1 = products_sum(k1, terms, r, k, parts);
    lemma_mod_bound(p0, q);
    lemma_mod_bound(p1, q);
    lemma_combined_sum(k0, k1, terms, s, r, k, parts);
    lemma_hybrid_combined_value(key, g, a, sk, e, terms, r, k, parts);
    assert forall|j: int, c: int| 0 <= j < digits.len() && 0 <= c < n implies (
    #[trigger] digits[j][r][c]) == u[j][c] % q by {
        assert(is_embedded(key.digit_rows(x, j), m, c, u[j][c]));
    }
    lemma_digits_noise_values(u, e, digits, terms, ctx, r, k, parts);
    lemma_own_sum(key, a, x, r, k, parts);
    let sv = s[r][k] as int;
    lemma_mul_mod_noop_general(p1, sv, q);
    lemma_mul_is_commutative(p1, sv);
    lemma_add_mod_noop(p0, sv * p1, q);
    lemma_add_mod_noop(p0 % q, (p1 % q) * sv, q);
    lemma_mod_twice(p0, q);
    lemma_add_mod_noop(
        noise_values(e, terms, ctx, r, k, parts),
        own_sum(key, a, terms, r, k, parts),
        q,
    );
    lemma_add_mod_noop(
        eval_int(digits_noise(u, e, n, parts), pow(ctx.ntt(r).root(), (2 * k + 1) as nat)),
        own_sum(key, a, terms, r, k, parts),
        q,
    );
}

/// An embedded digit has a row of `n` residues for every modulus of the
/// combined chain.
pub proof fn lemma_digit_shape(key: HybridKeySwitchingKey, x: Seq<Seq<u64>>, j: int)
    requires
        key.wf(),
        residues_in(x, key.source().moduli(), key.source().n()),
        0 <= j < key.parts(),
    ensures
        shaped(key.digit_rows(x, j), key.combined().moduli().len(), key.source().n()),
        shaped(
            forward_rows(key.digit_rows(x, j), key.combined()),
            key.combined().moduli().len(),
            key.source().n(),
        ),
{
    key.source().lemma_wf();
    key.aux().lemma_wf();
    key.combined().lemma_wf();
    assert(key.group_wf(j));
    let l = key.chain().len() as int;
    let d = key.digits() as int;
    assert(j * d <= (key.parts() - 1) * d) by (nonlinear_arith)
        requires
            j <= key.parts() - 1,
            d >= 0,
    ;
    assert(j * d >= 0) by (nonlinear_arith)
        requires
            j >= 0,
            d >= 0,
    ;
    let start = group_start(j, d);
    let end = group_end(j, d, l);
    let rows = key.digit_rows(x, j);
    assert(key.group_targets(j).len() == l - (end - start) + key.aux_chain().len());
    assert(rows.len() == key.combined().moduli().len());
    assert forall|r: int| 0 <= r < rows.len() implies (#[trigger] rows[r]).len() == key.source().n() by {
        if start <= r < end {
            assert(rows[r] == x[r]);
        }
    }
    let values = forward_rows(rows, key.combined());
    assert forall|r: int| 0 <= r < values.len() implies (#[trigger] values[r]).len()
        == key.source().n() by {
        assert(rows[r].len() == key.source().n());
    }
}

/// The coefficients of a sum over the combined chain, brought down to the
/// source chain.
pub open spec fn lowered(key: HybridKeySwitchingKey, acc: Seq<Seq<u64>>) -> Seq<Seq<u64>> {
    mod_down(
        backward_rows(acc, key.combined()),
        key.source().moduli(),
        key.aux().moduli(),
        key.aux_hat_inv(),
        key.aux_hat_modq(),
        key.aux_inv(),
        key.source().n(),
    )
}

/// `rest` and `count` are what bringing `acc` down subtracts: at every
/// coefficient a number below the auxiliary product with the residues of the
/// auxiliary rows, and a count below the number of auxiliary moduli.
pub open spec fn lowering_of(
    key: HybridKeySwitchingKey,
    acc: Seq<Seq<u64>>,
    rest: Seq<int>,
    count: Seq<int>,
) -> bool {
    let n = key.source().n();
    let big = seq_product(key.aux().moduli());
    let coefficients = backward_rows(acc, key.combined());
    &&& rest.len() == n
    &&& count.len() == n
    &&& forall|c: int| 0 <= c < n ==> 0 <= (#[trigger] rest[c]) < big
    &&& forall|c: int| 0 <= c < n ==> 0 <= (#[trigger] count[c]) < key.aux().moduli().len()
    &&& forall|c: int|
        0 <= c < n ==> #[trigger] has_residues(
            rest[c],
            coefficients.subrange(
                key.source().moduli().len() as int,
                key.combined().moduli().len() as int,
            ),
            key.aux().moduli(),
            c,
        )
    &&& forall|c: int|
        0 <= c < n ==> #[trigger] is_divided(
            lowered(key, acc),
            coefficients,
            key.source().moduli(),
            key.aux_inv(),
            c,
            rest[c] + count[c] * big,
        )
}

/// The value at a root of the coefficients of a row of a sum is the sum at
/// the place.
pub proof fn lemma_coefficients_value(ctx: PolyContext, acc: Seq<Seq<u64>>, r: int, k: int)
    requires
        ctx.wf(),
        residues_in(acc, ctx.moduli(), ctx.n()),
        0 <= r < ctx.moduli().len(),
        0 <= k < ctx.n(),
    ensures
        backward_rows(acc, ctx).len() == ctx.moduli().len(),
        backward_rows(acc, ctx)[r].len() == ctx.n(),
        reduced(backward_rows(acc, ctx)[r], ctx.moduli()[r]),
        eval_int(
            as_ints(backward_rows(acc, ctx)[r]),
            pow(ctx.ntt(r).root(), (2 * k + 1) as nat),
        ) % ctx.moduli()[r] == acc[r][k],
{
    ctx.lemma_wf();
    let op = ctx.ntt(r);
    let q = ctx.moduli()[r];
    let row = backward_rows(acc, ctx)[r];
    assert(row == op.backward_of(acc[r]));
    assert(reduced(acc[r], q));
    lemma_forward_backward(op, acc[r]);
    let point = pow(op.root(), (2 * k + 1) as nat);
    lemma_eval_as_ints(row, point);
    assert(op.forward_of(row)[k] == acc[r][k]);
    lemma_mod_bound(poly_eval(row, point), q);
    assert forall|c: int| 0 <= c < row.len() implies (#[trigger] row[c]) < q by {
        lemma_mod_bound(
            op.length_inv() * pow(op.root_inv(), c as nat) * poly_eval(
                acc[r],
                pow(op.root_inv(), (2 * c) as nat),
            ),
            q,
        );
    }
}

/// What bringing down gives at a place: the inverse of the auxiliary
/// product times the sum at the place less the values of what is subtracted.
pub proof fn lemma_lowered_value(
    key: HybridKeySwitchingKey,
    acc: Seq<Seq<u64>>,
    rest: Seq<int>,
    count: Seq<int>,
    r: int,
    k: int,
)
    requires
        key.wf(),
        residues_in(acc, key.combined().moduli(), key.source().n()),
        lowering_of(key, acc, rest, count),
        0 <= r < key.chain().len(),
        0 <= k < key.source().n(),
    ensures
        key.brought_down(acc).len() == key.chain().len(),
        key.brought_down(acc)[r].len() == key.source().n(),
        (key.brought_down(acc)[r][k] as int) % key.source().moduli()[r] == (key.aux_inv()[r] * (
        acc[r][k] - (eval_int(rest, pow(key.source().ntt(r).root(), (2 * k + 1) as nat)) + eval_int(
            count,
            pow(key.source().ntt(r).root(), (2 * k + 1) as nat),
        ) * seq_product(key.aux().moduli())))) % key.source().moduli()[r],
{
    let ctx = key.combined();
    let src = key.source();
    src.lemma_wf();
    key.aux().lemma_wf();
    ctx.lemma_wf();
    let n = src.n();
    let q = src.moduli()[r];
    let big = seq_product(key.aux().moduli());
    let pinv = key.aux_inv()[r] as int;
    let op = src.ntt(r);
    let point = pow(op.root(), (2 * k + 1) as nat);
    let coefficients = backward_rows(acc, ctx);
    let down = lowered(key, acc);
    assert(ctx.moduli()[r] == q);
    lemma_same_root(ctx.ntt(r), op);
    lemma_coefficients_value(ctx, acc, r, k);
    let row = down[r];
    assert(row.len() == n);
    let out = key.brought_down(acc);
    assert(out[r] == op.forward_of(row));
    lemma_eval_as_ints(row, point);
    lemma_mod_bound(poly_eval(row, point), q);
    // every coefficient of the row is a combination of the three
    let cint = as_ints(coefficients[r]);
    assert forall|c: int| 0 <= c < n implies (#[trigger] as_ints(row)[c]) % q == (pinv * cint[c] + (
    -pinv) * rest[c] + (-(pinv * big)) * count[c]) % q by {
        assert(is_divided(
            down,
            coefficients,
            src.moduli(),
            key.aux_inv(),
            c,
            rest[c] + count[c] * big,
        ));
        assert(down[r][c] == (pinv * (coefficients[r][c] - (rest[c] + count[c] * big))) % q);
        lemma_mod_twice(pinv * (coefficients[r][c] - (rest[c] + count[c] * big)), q);
        assert(pinv * (cint[c] - (rest[c] + count[c] * big)) == pinv * cint[c] + (-pinv) * rest[c]
            + (-(pinv * big)) * count[c]) by (nonlinear_arith);
    }
    lemma_eval_int_combination(
        as_ints(row),
        cint,
        rest,
        count,
        pinv,
        -pinv,
        -(pinv * big),
        point,
        q,
    );
    let ec = eval_int(cint, point);
    let er = eval_int(rest, point);
    let ew = eval_int(count, point);
    let av = acc[r][k] as int;
    assert(pinv * ec + (-pinv) * er + (-(pinv * big)) * ew == pinv * (ec - (er + ew * big)))
        by (nonlinear_arith);
    assert(reduced(acc[r], ctx.moduli()[r]));
    lemma_small_mod(av as nat, q as nat);
    lemma_congruent_add(ec, av, er + ew * big, er + ew * big, q);
    lemma_congruent_mul(pinv, pinv, ec - (er + ew * big), av - (er + ew * big), q);
    lemma_mod_twice(poly_eval(row, point), q);
}

/// What is divided by the auxiliary product: the noise of the digits less
/// what bringing the first sum down subtracts, less the negacyclic product
/// of what bringing the second sum down subtracts with the secret.
pub open spec fn to_divide(
    noise: Seq<int>,
    rest0: Seq<int>,
    rest1: Seq<int>,
    sk: Seq<i64>,
    n: nat,
) -> Seq<int> {
    Seq::new(n, |c: int| noise[c] - rest0[c] - convolution(rest1, ints_of(sk), n)[c])
}

/// The two sums of a switch, with what the key and the input stand for.
pub open spec fn is_hybrid_switch(
    key: HybridKeySwitchingKey,
    g: Seq<nat>,
    a: Seq<Seq<u64>>,
    sk: Seq<i64>,
    e: Seq<Seq<i64>>,
    x: Seq<Seq<u64>>,
    u: Seq<Seq<int>>,
    rest0: Seq<int>,
    count0: Seq<int>,
    rest1: Seq<int>,
    count1: Seq<int>,
) -> bool {
    &&& is_hybrid_key(key, g, a, sk, e)
    &&& residues_in(x, key.source().moduli(), key.source().n())
    &&& sk.len() == key.source().n()
    &&& digits_stand_for(key, x, u)
    &&& lowering_of(key, hybrid_sum(key, key.c0_polys(), x), rest0, count0)
    &&& lowering_of(key, hybrid_sum(key, key.c1_polys(), x), rest1, count1)
}

/// The two sums of a switch hold residues of the combined chain.
pub proof fn lemma_hybrid_sum_shape(
    key: HybridKeySwitchingKey,
    g: Seq<nat>,
    a: Seq<Seq<u64>>,
    sk: Seq<i64>,
    e: Seq<Seq<i64>>,
    x: Seq<Seq<u64>>,
    u: Seq<Seq<int>>,
)
    requires
        is_hybrid_key(key, g, a, sk, e),
        residues_in(x, key.source().moduli(), key.source().n()),
        digits_stand_for(key, x, u),
    ensures
        residues_in(
            hybrid_sum(key, key.c0_polys(), x),
            key.combined().moduli(),
            key.source().n(),
        ),
        residues_in(
            hybrid_sum(key, key.c1_polys(), x),
            key.combined().moduli(),
            key.source().n(),
        ),
{
    key.combined().lemma_wf();
    key.source().lemma_wf();
    let n = key.source().n();
    let m = key.combined().moduli();
    let acc0 = hybrid_sum(key, key.c0_polys(), x);
    let acc1 = hybrid_sum(key, key.c1_polys(), x);
    lemma_hybrid_sum_values(key, g, a, sk, e, x, u, 0, 0);
    assert forall|r: int| 0 <= r < m.len() implies (#[trigger] acc0[r]).len() == n && reduced(
        acc0[r],
        m[r],
    ) by {
        lemma_hybrid_sum_values(key, g, a, sk, e, x, u, r, 0);
        assert forall|k: int| 0 <= k < acc0[r].len() implies (#[trigger] acc0[r][k]) < m[r] by {
            lemma_hybrid_sum_values(key, g, a, sk, e, x, u, r, k);
        }
    }
    assert forall|r: int| 0 <= r < m.len() implies (#[trigger] acc1[r]).len() == n && reduced(
        acc1[r],
        m[r],
    ) by {
        lemma_hybrid_sum_values(key, g, a, sk, e, x, u, r, 0);
        assert forall|k: int| 0 <= k < acc1[r].len() implies (#[trigger] acc1[r][k]) < m[r] by {
            lemma_hybrid_sum_values(key, g, a, sk, e, x, u, r, k);
        }
    }
}

/// What is to be divided by the auxiliary product is a multiple of it.
pub proof fn lemma_hybrid_divisible(
    key: HybridKeySwitchingKey,
    g: Seq<nat>,
    a: Seq<Seq<u64>>,
    sk: Seq<i64>,
    e: Seq<Seq<i64>>,
    x: Seq<Seq<u64>>,
    u: Seq<Seq<int>>,
    rest0: Seq<int>,
    count0: Seq<int>,
    rest1: Seq<int>,
    count1: Seq<int>,
    c: int,
)
    requires
        is_hybrid_switch(key, g, a, sk, e, x, u, rest0, count0, rest1, count1),
        0 <= c < key.source().n(),
    ensures
        to_divide(
            digits_noise(u, e, key.source().n(), key.parts()),
            rest0,
            rest1,
            sk,
            key.source().n(),
        )[c] % seq_product(key.aux().moduli()) == 0,
{
    let ctx = key.combined();
    let src = key.source();
    src.lemma_wf();
    key.aux().lemma_wf();
    ctx.lemma_wf();
    let n = src.n();
    let l = src.moduli().len() as int;
    let total = ctx.moduli().len() as int;
    let aux = key.aux().moduli();
    let noise = digits_noise(u, e, n, key.parts());
    let sks = ints_of(sk);
    let product = convolution(rest1, sks, n);
    lemma_convolution_length(rest1, sks, n);
    let m = to_divide(noise, rest0, rest1, sk, n);
    let acc0 = hybrid_sum(key, key.c0_polys(), x);
    let acc1 = hybrid_sum(key, key.c1_polys(), x);
    lemma_hybrid_sum_shape(key, g, a, sk, e, x, u);
    let c0 = backward_rows(acc0, ctx);
    let c1 = backward_rows(acc1, ctx);
    assert forall|i: int| 0 <= i < aux.len() implies m[c] % (#[trigger] aux[i]) == 0 by {
        let r = l + i;
        let p = aux[i];
        assert(ctx.moduli()[r] == p);
        let op = ctx.ntt(r);
        let residues = residues_of(m, p);
        assert(reduced(residues, p)) by {
            assert forall|j: int| 0 <= j < residues.len() implies (#[trigger] residues[j]) < p by {
                lemma_mod_bound(m[j], p);
            }
        }
        assert forall|k: int| 0 <= k < residues.len() implies (#[trigger] op.forward_of(
            residues,
        )[k]) == 0 by {
            let point = pow(op.root(), (2 * k + 1) as nat);
            lemma_hybrid_sum_values(key, g, a, sk, e, x, u, r, k);
            lemma_coefficients_value(ctx, acc0, r, k);
            lemma_coefficients_value(ctx, acc1, r, k);
            // the values of what is subtracted are the sums at the place
            assert forall|j: int| 0 <= j < n implies (#[trigger] rest0[j]) % p == as_ints(c0[r])[j]
                % p by {
                assert(has_residues(rest0[j], c0.subrange(l, total), aux, j));
                assert(c0.subrange(l, total)[i] == c0[r]);
                lemma_small_mod(c0[r][j] as nat, p as nat);
            }
            assert forall|j: int| 0 <= j < n implies (#[trigger] rest1[j]) % p == as_ints(c1[r])[j]
                % p by {
                assert(has_residues(rest1[j], c1.subrange(l, total), aux, j));
                assert(c1.subrange(l, total)[i] == c1[r]);
                lemma_small_mod(c1[r][j] as nat, p as nat);
            }
            lemma_eval_int_congruent(rest0, as_ints(c0[r]), point, p);
            lemma_eval_int_congruent(rest1, as_ints(c1[r]), point, p);
            let er0 = eval_int(rest0, point);
            let er1 = eval_int(rest1, point);
            let es = eval_int(sks, point);
            let en = eval_int(noise, point);
            let a0 = acc0[r][k] as int;
            let a1 = acc1[r][k] as int;
            lemma_small_mod(a0 as nat, p as nat);
            lemma_small_mod(a1 as nat, p as nat);
            // the secret at the place
            let sv = secret_rows(sk, ctx)[r][k] as int;
            lemma_eval_reduced_i64(sk, point, p);
            lemma_mod_bound(poly_eval(crate::modulus::reduce_i64_seq(sk, p), point), p);
            assert(sv == poly_eval(crate::modulus::reduce_i64_seq(sk, p), point) % p);
            lemma_small_mod(sv as nat, p as nat);
            // the product with the secret
            lemma_odd_power_root(op.root(), n, k as nat, p);
            assert(rest1.take(n as int) =~= rest1);
            lemma_eval_convolution(rest1, sks, n, point, p);
            let ers = eval_int(product, point);
            lemma_congruent_mul(er1, a1, es, sv, p);
            // the value of what is to be divided
            assert forall|j: int| 0 <= j < m.len() implies (#[trigger] m[j]) % p == (1 * noise[j] + (
            -1) * rest0[j] + (-1) * product[j]) % p by {}
            lemma_digits_noise_length(u, e, n, key.parts());
            lemma_eval_int_combination(m, noise, rest0, product, 1, -1, -1, point, p);
            assert(1 * en + (-1) * er0 + (-1) * ers == en - er0 - ers);
            lemma_congruent_add(en, en, er0, a0, p);
            lemma_congruent_add(en - er0, en - a0, ers, a1 * sv, p);
            assert((en - er0 - ers) % p == (en - a0 - a1 * sv) % p);
            lemma_congruent_add(en, a0 + a1 * sv, a0 + a1 * sv, a0 + a1 * sv, p);
            assert((en - (a0 + a1 * sv)) % p == 0) by {
                lemma_small_mod(0, p as nat);
            }
            assert(eval_int(m, point) % p == 0);
            // and of its residues
            lemma_eval_as_ints(residues, point);
            assert forall|j: int| 0 <= j < residues.len() implies (#[trigger] as_ints(residues)[j])
                % p == m[j] % p by {
                lemma_mod_bound(m[j], p);
                lemma_mod_twice(m[j], p);
            }
            lemma_eval_int_congruent(as_ints(residues), m, point, p);
        }
        lemma_forward_zero(op, residues);
        assert(residues[c] == 0);
        lemma_mod_bound(m[c], p);
    }
    assert forall|i: int| 0 <= i < aux.len() implies inverse_of(
        seq_product(aux) / #[trigger] aux[i],
        key.aux_hat_inv()[i] as int,
        aux[i],
    ) by {}
    lemma_common_multiple(aux, key.aux_hat_inv(), m[c], aux.len());
    assert(aux.take(aux.len() as int) =~= aux);
}

/// The noise of the digits has one entry for every coefficient.
pub proof fn lemma_digits_noise_length(u: Seq<Seq<int>>, e: Seq<Seq<i64>>, n: nat, upto: nat)
    ensures
        digits_noise(u, e, n, upto).len() == n,
    decreases upto,
{
    if upto > 0 {
        lemma_digits_noise_length(u, e, n, (upto - 1) as nat);
    }
}

/// The noise of a switch: what is to be divided, divided by the auxiliary
/// product, less what bringing down counts.
pub open spec fn hybrid_noise(
    noise: Seq<int>,
    rest0: Seq<int>,
    count0: Seq<int>,
    rest1: Seq<int>,
    count1: Seq<int>,
    sk: Seq<i64>,
    big: int,
    n: nat,
) -> Seq<int> {
    Seq::new(
        n,
        |c: int|
            to_divide(noise, rest0, rest1, sk, n)[c] / big - count0[c] - convolution(
                count1,
                ints_of(sk),
                n,
            )[c],
    )
}

/// What is left of a switched pair under the secret of the key, less the
/// product of the key's polynomial and the input.
pub open spec fn hybrid_remainder(
    key: HybridKeySwitchingKey,
    a: Seq<Seq<u64>>,
    sk: Seq<i64>,
    x: Seq<Seq<u64>>,
) -> Seq<Seq<u64>> {
    let m = key.source().moduli();
    let out0 = key.brought_down(hybrid_sum(key, key.c0_polys(), x));
    let out1 = key.brought_down(hybrid_sum(key, key.c1_polys(), x));
    sub_rows(
        add_rows(out0, mul_rows(out1, secret_rows(sk, key.source()), m), m),
        mul_rows(a, forward_rows(x, key.source()), m),
        m,
    )
}

/// A switch gives the product plus the noise, at the roots.
pub proof fn lemma_hybrid_switch_values(
    key: HybridKeySwitchingKey,
    g: Seq<nat>,
    a: Seq<Seq<u64>>,
    sk: Seq<i64>,
    e: Seq<Seq<i64>>,
    x: Seq<Seq<u64>>,
    u: Seq<Seq<int>>,
    rest0: Seq<int>,
    count0: Seq<int>,
    rest1: Seq<int>,
    count1: Seq<int>,
    r: int,
    k: int,
)
    requires
        is_hybrid_switch(key, g, a, sk, e, x, u, rest0, count0, rest1, count1),
        0 <= r < key.chain().len(),
        0 <= k < key.source().n(),
    ensures
        hybrid_remainder(key, a, sk, x).len() == key.chain().len(),
        hybrid_remainder(key, a, sk, x)[r].len() == key.source().n(),
        hybrid_remainder(key, a, sk, x)[r][k] == eval_int(
            hybrid_noise(
                digits_noise(u, e, key.source().n(), key.parts()),
                rest0,
                count0,
                rest1,
                count1,
                sk,
                seq_product(key.aux().moduli()),
                key.source().n(),
            ),
            pow(key.source().ntt(r).root(), (2 * k + 1) as nat),
        ) % key.source().moduli()[r],
{
    let ctx = key.combined();
    let src = key.source();
    src.lemma_wf();
    key.aux().lemma_wf();
    ctx.lemma_wf();
    let n = src.n();
    let m = src.moduli();
    let q = m[r];
    let big = seq_product(key.aux().moduli());
    let pinv = key.aux_inv()[r] as int;
    let op = src.ntt(r);
    let point = pow(op.root(), (2 * k + 1) as nat);
    assert(ctx.moduli()[r] == q);
    lemma_same_root(ctx.ntt(r), op);
    let acc0 = hybrid_sum(key, key.c0_polys(), x);
    let acc1 = hybrid_sum(key, key.c1_polys(), x);
    lemma_hybrid_sum_shape(key, g, a, sk, e, x, u);
    lemma_hybrid_sum_values(key, g, a, sk, e, x, u, r, k);
    lemma_lowered_value(key, acc0, rest0, count0, r, k);
    lemma_lowered_value(key, acc1, rest1, count1, r, k);
    let out0 = key.brought_down(acc0);
    let out1 = key.brought_down(acc1);
    let sks = ints_of(sk);
    let noise = digits_noise(u, e, n, key.parts());
    lemma_digits_noise_length(u, e, n, key.parts());
    let to = to_divide(noise, rest0, rest1, sk, n);
    let rs = convolution(rest1, sks, n);
    let ws = convolution(count1, sks, n);
    lemma_convolution_length(rest1, sks, n);
    lemma_convolution_length(count1, sks, n);
    let quotient = Seq::new(n, |c: int| to[c] / big);
    let last = hybrid_noise(noise, rest0, count0, rest1, count1, sk, big, n);
    // the secret at the place
    let s = secret_rows(sk, src);
    let sv = s[r][k] as int;
    assert(secret_rows(sk, ctx)[r] == s[r]);
    lemma_eval_reduced_i64(sk, point, q);
    lemma_mod_bound(poly_eval(crate::modulus::reduce_i64_seq(sk, q), point), q);
    assert(sv == poly_eval(crate::modulus::reduce_i64_seq(sk, q), point) % q);
    lemma_small_mod(sv as nat, q as nat);
    let es = eval_int(sks, point);
    let er0 = eval_int(rest0, point);
    let er1 = eval_int(rest1, point);
    let ew0 = eval_int(count0, point);
    let ew1 = eval_int(count1, point);
    let en = eval_int(noise, point);
    let ers = eval_int(rs, point);
    let ews = eval_int(ws, point);
    let em = eval_int(quotient, point);
    let enoise = eval_int(last, point);
    // the products with the secret
    lemma_odd_power_root(op.root(), n, k as nat, q);
    assert(rest1.take(n as int) =~= rest1);
    assert(count1.take(n as int) =~= count1);
    lemma_eval_convolution(rest1, sks, n, point, q);
    lemma_eval_convolution(count1, sks, n, point, q);
    lemma_congruent_mul(er1, er1, es, sv, q);
    lemma_congruent_mul(ew1, ew1, es, sv, q);
    // what is divided
    assert forall|c: int| 0 <= c < n implies (#[trigger] to[c]) == big * quotient[c] by {
        lemma_hybrid_divisible(key, g, a, sk, e, x, u, rest0, count0, rest1, count1, c);
        lemma_product_bound(key.aux().moduli(), 0);
        lemma_fundamental_div_mod(to[c], big);
    }
    assert(to =~= Seq::new(quotient.len(), |c: int| big * quotient[c]));
    lemma_eval_int_scaled(quotient, big, point);
    assert forall|c: int| 0 <= c < to.len() implies (#[trigger] to[c]) % q == (1 * noise[c] + (-1)
        * rest0[c] + (-1) * rs[c]) % q by {}
    lemma_eval_int_combination(to, noise, rest0, rs, 1, -1, -1, point, q);
    assert(1 * en + (-1) * er0 + (-1) * ers == en - er0 - ers);
    assert forall|c: int| 0 <= c < last.len() implies (#[trigger] last[c]) % q == (1 * quotient[c]
        + (-1) * count0[c] + (-1) * ws[c]) % q by {}
    lemma_eval_int_combination(last, quotient, count0, ws, 1, -1, -1, point, q);
    assert(1 * em + (-1) * ew0 + (-1) * ews == em - ew0 - ews);
    // the place
    let xhat = forward_rows(x, src);
    let av = a[r][k] as int;
    let xv = xhat[r][k] as int;
    let ax = av * xv;
    assert(big * av * xv == big * ax) by (nonlinear_arith)
        requires
            ax == av * xv,
    ;
    assert(inverse_of(big, pinv, key.chain()[r] as int));
    assert(key.chain()[r] as int == q) by {
        assert(as_ints(key.chain())[r] == m[r]);
    }
    let a0 = acc0[r][k] as int;
    let a1 = acc1[r][k] as int;
    let o0 = out0[r][k] as int;
    let o1 = out1[r][k] as int;
    lemma_hybrid_place(
        q,
        big,
        pinv,
        a0,
        a1,
        sv,
        o0,
        o1,
        er0,
        er1,
        ew0,
        ew1,
        en,
        ax,
        ers,
        ews,
        em,
        enoise,
    );
    // unfold what is left at the place
    let second = mul_rows(out1, s, m);
    assert(second[r] == mul_seq(out1[r], s[r], q));
    assert(second[r][k] == (o1 * sv) % q);
    let sum = add_rows(out0, second, m);
    assert(sum[r] == add_seq(out0[r], second[r], q));
    assert(sum[r][k] == (o0 + second[r][k]) % q);
    let product = mul_rows(a, xhat, m);
    assert(a[r].len() == n);
    assert(product[r] == mul_seq(a[r], xhat[r], q));
    assert(product[r][k] == ax % q);
    let rest = sub_rows(sum, product, m);
    assert(rest[r] == sub_seq(sum[r], product[r], q));
    assert(rest[r][k] == (sum[r][k] - product[r][k]) % q);
    lemma_add_mod_noop_right(o0, o1 * sv, q);
    lemma_sub_mod_noop(o0 + o1 * sv, ax, q);
    lemma_mod_bound(enoise, q);
}

/// The bounds of the numbers that the digits stand for.
pub open spec fn digit_bounds(key: HybridKeySwitchingKey) -> Seq<int> {
    Seq::new(key.parts(), |j: int| digit_bound(key, j))
}

/// The bound of the noise of a switch: the degree times the bound of the
/// errors times the sum of the bounds of the digits, divided by the
/// auxiliary product, plus the degree and one for every auxiliary modulus
/// and one more.
pub open spec fn hybrid_bound(key: HybridKeySwitchingKey) -> int {
    (key.source().n() * (ERROR_BOUND * bounds_sum(digit_bounds(key), key.parts()))) / seq_product(
        key.aux().moduli(),
    ) + (key.source().n() + 1) * (key.aux().moduli().len() + 1)
}

/// The noise of a switch lies within its bound.
pub proof fn lemma_hybrid_noise_bound(
    key: HybridKeySwitchingKey,
    g: Seq<nat>,
    a: Seq<Seq<u64>>,
    sk: Seq<i64>,
    e: Seq<Seq<i64>>,
    x: Seq<Seq<u64>>,
    u: Seq<Seq<int>>,
    rest0: Seq<int>,
    count0: Seq<int>,
    rest1: Seq<int>,
    count1: Seq<int>,
)
    requires
        is_hybrid_switch(key, g, a, sk, e, x, u, rest0, count0, rest1, count1),
        is_ternary(sk),
        forall|j: int| 0 <= j < e.len() ==> is_small(#[trigger] e[j]),
    ensures
        within(
            hybrid_noise(
                digits_noise(u, e, key.source().n(), key.parts()),
                rest0,
                count0,
                rest1,
                count1,
                sk,
                seq_product(key.aux().moduli()),
                key.source().n(),
            ),
            hybrid_bound(key),
        ),
{
    key.source().lemma_wf();
    key.aux().lemma_wf();
    key.combined().lemma_wf();
    let n = key.source().n();
    let parts = key.parts();
    let big = seq_product(key.aux().moduli());
    let lp = key.aux().moduli().len();
    lemma_product_bound(key.aux().moduli(), 0);
    let bounds = digit_bounds(key);
    let sks = ints_of(sk);
    let noise = digits_noise(u, e, n, parts);
    let bound = ERROR_BOUND as int;
    assert forall|j: int| 0 <= j < u.len() implies (#[trigger] bounds[j]) >= 0 by {
        assert(0 <= u[j][0] < digit_bound(key, j));
    }
    assert forall|j: int| 0 <= j < u.len() implies (#[trigger] u[j]).len() == n && within(
        u[j],
        bounds[j],
    ) by {
        assert forall|c: int| 0 <= c < u[j].len() implies -bounds[j] <= (#[trigger] u[j][c])
            <= bounds[j] by {
            assert(0 <= u[j][c] < digit_bound(key, j));
        }
    }
    assert forall|j: int| 0 <= j < e.len() implies (#[trigger] e[j]).len() == n && within(
        ints_of(e[j]),
        bound,
    ) by {
        assert(is_small(e[j]));
        assert forall|c: int| 0 <= c < ints_of(e[j]).len() implies -bound <= (#[trigger] ints_of(
            e[j],
        )[c]) <= bound by {
            assert(-bound <= e[j][c] <= bound);
        }
    }
    lemma_digits_noise_bound(u, e, bounds, n, bound, parts);
    let nb = n * (bound * bounds_sum(bounds, parts));
    assert(nb >= 0) by (nonlinear_arith)
        requires
            nb == n * (bound * bounds_sum(bounds, parts)),
            bound >= 0,
            bounds_sum(bounds, parts) >= 0,
    ;
    // the products with the secret
    assert(within(sks, 1)) by {
        assert forall|c: int| 0 <= c < sks.len() implies -1 <= (#[trigger] sks[c]) <= 1 by {
            assert(-1 <= sk[c] <= 1);
        }
    }
    assert(within(rest1, big)) by {
        assert forall|c: int| 0 <= c < rest1.len() implies -big <= (#[trigger] rest1[c]) <= big by {}
    }
    assert(within(count1, lp as int)) by {
        assert forall|c: int| 0 <= c < count1.len() implies -(lp as int) <= (#[trigger] count1[c])
            <= lp by {}
    }
    lemma_convolution_bound(rest1, sks, n, big, 1);
    lemma_convolution_bound(count1, sks, n, lp as int, 1);
    let rs = convolution(rest1, sks, n);
    let ws = convolution(count1, sks, n);
    let to = to_divide(noise, rest0, rest1, sk, n);
    let last = hybrid_noise(noise, rest0, count0, rest1, count1, sk, big, n);
    let t = nb / big;
    lemma_fundamental_div_mod(nb, big);
    lemma_mod_bound(nb, big);
    assert forall|c: int| 0 <= c < last.len() implies -hybrid_bound(key) <= (#[trigger] last[c])
        <= hybrid_bound(key) by {
        lemma_hybrid_divisible(key, g, a, sk, e, x, u, rest0, count0, rest1, count1, c);
        lemma_fundamental_div_mod(to[c], big);
        let quotient = to[c] / big;
        assert(-nb <= noise[c] <= nb);
        assert(0 <= rest0[c] < big);
        assert(-(n * (big * 1)) <= rs[c] <= n * (big * 1));
        assert(0 <= count0[c] < lp);
        assert(-(n * (lp * 1)) <= ws[c] <= n * (lp * 1));
        assert(-(t + n + 1) <= quotient <= t + n + 1) by (nonlinear_arith)
            requires
                to[c] == big * quotient,
                to[c] == noise[c] - rest0[c] - rs[c],
                -nb <= noise[c] <= nb,
                0 <= rest0[c] < big,
                -(n * (big * 1)) <= rs[c] <= n * (big * 1),
                nb == big * t + nb % big,
                0 <= nb % big < big,
                big >= 1,
        ;
        assert((n + 1) * (lp + 1) == n + 1 + lp + n * (lp * 1)) by (nonlinear_arith);
    }
}

/// `noise` is the noise of the switch of `x`: it lies within the bound of
/// the key, and under every modulus of the source chain its residues are the
/// coefficients of what is left of the switched pair under the secret, less
/// the product of the key's polynomial and `x`.
pub open spec fn is_hybrid_noise(
    noise: Seq<int>,
    key: HybridKeySwitchingKey,
    a: Seq<Seq<u64>>,
    sk: Seq<i64>,
    x: Seq<Seq<u64>>,
) -> bool {
    &&& noise.len() == key.source().n()
    &&& within(noise, hybrid_bound(key))
    &&& forall|r: int|
        0 <= r < key.chain().len() ==> (#[trigger] key.source().ntt(r)).backward_of(
            hybrid_remainder(key, a, sk, x)[r],
        ) == residues_of(noise, key.source().moduli()[r])
}

/// A key of the hybrid variant switches correctly: where every element of
/// the key is built on the generator of its digit, the polynomial `a` and
/// the ternary secret `sk` with small errors, the switched pair of any input
/// `x` is, under the secret, the product of `a` and `x` plus a noise within
/// the bound of the key.
pub proof fn lemma_hybrid_key_switch(
    key: HybridKeySwitchingKey,
    a: Seq<Seq<u64>>,
    sk: Seq<i64>,
    x: Seq<Seq<u64>>,
)
    requires
        key.wf(),
        residues_in(a, key.source().moduli(), key.source().n()),
        residues_in(x, key.source().moduli(), key.source().n()),
        sk.len() == key.source().n(),
        is_ternary(sk),
        forall|j: int| 0 <= j < key.parts() ==> #[trigger] key.element_wf(j, a, sk),
    ensures
        exists|noise: Seq<int>| #[trigger] is_hybrid_noise(noise, key, a, sk, x),
{
    let ctx = key.combined();
    let src = key.source();
    src.lemma_wf();
    key.aux().lemma_wf();
    ctx.lemma_wf();
    let n = src.n();
    let l = src.moduli().len() as int;
    let total = ctx.moduli().len() as int;
    let parts = key.parts();
    let big = seq_product(key.aux().moduli());
    // the generators and the errors of the key
    let g = Seq::new(
        parts,
        |j: int|
            choose|g: nat| #[trigger]
                is_hybrid_generator(
                    g,
                    seq_product(key.aux().moduli()),
                    seq_product(key.source().moduli()),
                    seq_product(digit_moduli(key, j)),
                ) && is_hybrid_element(
                    key.c0_polys()[j],
                    g,
                    a,
                    key.c1_polys()[j].rows(),
                    sk,
                    ctx,
                    l,
                ),
    );
    let e = Seq::new(
        parts,
        |j: int|
            choose|e: Seq<i64>|
                e.len() == n && is_small(e) && #[trigger] is_hybrid_c0(
                    key.c0_polys()[j],
                    g[j],
                    a,
                    key.c1_polys()[j].rows(),
                    sk,
                    e,
                    ctx,
                    l,
                ),
    );
    assert forall|j: int| 0 <= j < parts implies is_hybrid_generator(
        #[trigger] g[j],
        seq_product(key.aux().moduli()),
        seq_product(key.source().moduli()),
        seq_product(digit_moduli(key, j)),
    ) && is_hybrid_element(key.c0_polys()[j], g[j], a, key.c1_polys()[j].rows(), sk, ctx, l) by {
        assert(key.element_wf(j, a, sk));
    }
    assert forall|j: int| 0 <= j < parts implies (#[trigger] e[j]).len() == n && is_small(e[j])
        && is_hybrid_c0(key.c0_polys()[j], g[j], a, key.c1_polys()[j].rows(), sk, e[j], ctx, l) by {
        assert(is_hybrid_generator(
            g[j],
            seq_product(key.aux().moduli()),
            seq_product(key.source().moduli()),
            seq_product(digit_moduli(key, j)),
        ));
        assert(is_hybrid_element(key.c0_polys()[j], g[j], a, key.c1_polys()[j].rows(), sk, ctx, l));
    }
    assert forall|j: int| 0 <= j < parts implies is_hybrid_c0(
        #[trigger] key.c0_polys()[j],
        g[j],
        a,
        key.c1_polys()[j].rows(),
        sk,
        e[j],
        ctx,
        l,
    ) by {
        assert(e[j].len() == n);
    }
    assert(is_hybrid_key(key, g, a, sk, e));
    // the numbers of the digits
    let u = Seq::new(
        parts,
        |j: int|
            Seq::new(
                n,
                |c: int|
                    choose|number: int|
                        0 <= number < digit_bound(key, j) && #[trigger] is_embedded(
                            key.digit_rows(x, j),
                            ctx.moduli(),
                            c,
                            number,
                        ),
            ),
    );
    assert forall|j: int, c: int| 0 <= j < u.len() && 0 <= c < n implies 0 <= (#[trigger] u[j][c])
        < digit_bound(key, j) && is_embedded(key.digit_rows(x, j), ctx.moduli(), c, u[j][c]) by {
        lemma_digit_embedded(key, x, j, c);
    }
    assert(digits_stand_for(key, x, u));
    // what bringing the two sums down subtracts
    lemma_hybrid_sum_shape(key, g, a, sk, e, x, u);
    let acc0 = hybrid_sum(key, key.c0_polys(), x);
    let acc1 = hybrid_sum(key, key.c1_polys(), x);
    let (rest0, count0) = lemma_lowering_exists(key, acc0);
    let (rest1, count1) = lemma_lowering_exists(key, acc1);
    assert(is_hybrid_switch(key, g, a, sk, e, x, u, rest0, count0, rest1, count1));
    let noise = hybrid_noise(digits_noise(u, e, n, parts), rest0, count0, rest1, count1, sk, big, n);
    lemma_hybrid_noise_bound(key, g, a, sk, e, x, u, rest0, count0, rest1, count1);
    assert forall|r: int| 0 <= r < key.chain().len() implies (#[trigger] src.ntt(r)).backward_of(
        hybrid_remainder(key, a, sk, x)[r],
    ) == residues_of(noise, src.moduli()[r]) by {
        let q = src.moduli()[r];
        let op = src.ntt(r);
        let coefficients = residues_of(noise, q);
        let row = hybrid_remainder(key, a, sk, x)[r];
        assert(reduced(coefficients, q)) by {
            assert forall|j: int| 0 <= j < coefficients.len() implies (#[trigger] coefficients[j])
                < q by {
                lemma_mod_bound(noise[j], q);
            }
        }
        lemma_hybrid_switch_values(key, g, a, sk, e, x, u, rest0, count0, rest1, count1, r, 0);
        assert forall|k: int| 0 <= k < n implies row[k] == op.forward_of(coefficients)[k] by {
            let point = pow(op.root(), (2 * k + 1) as nat);
            lemma_hybrid_switch_values(key, g, a, sk, e, x, u, rest0, count0, rest1, count1, r, k);
            lemma_eval_as_ints(coefficients, point);
            assert forall|j: int| 0 <= j < coefficients.len() implies (#[trigger] as_ints(
                coefficients,
            )[j]) % q == noise[j] % q by {
                lemma_mod_bound(noise[j], q);
                lemma_mod_twice(noise[j], q);
            }
            lemma_eval_int_congruent(as_ints(coefficients), noise, point, q);
            lemma_mod_bound(poly_eval(coefficients, point), q);
        }
        assert(row =~= op.forward_of(coefficients));
        lemma_backward_forward(op, coefficients);
    }
    assert(is_hybrid_noise(noise, key, a, sk, x));
}

/// Bringing a sum down subtracts something at every coefficient.
pub proof fn lemma_lowering_exists(key: HybridKeySwitchingKey, acc: Seq<Seq<u64>>) -> (r: (
    Seq<int>,
    Seq<int>,
))
    requires
        key.wf(),
        residues_in(acc, key.combined().moduli(), key.source().n()),
    ensures
        lowering_of(key, acc, r.0, r.1),
{
    let ctx = key.combined();
    let src = key.source();
    src.lemma_wf();
    key.aux().lemma_wf();
    ctx.lemma_wf();
    let n = src.n();
    let l = src.moduli().len() as int;
    let total = ctx.moduli().len() as int;
    let q = src.moduli();
    let p = key.aux().moduli();
    let big = seq_product(p);
    let coefficients = backward_rows(acc, ctx);
    let tail = coefficients.subrange(l, total);
    let down = lowered(key, acc);
    let pairs = Seq::new(
        n,
        |c: int|
            choose|rest: int, w: int|
                0 <= rest < seq_product(p) && 0 <= w < p.len() && has_residues(rest, tail, p, c)
                    && #[trigger] is_divided(
                    down,
                    coefficients,
                    q,
                    key.aux_inv(),
                    c,
                    rest + w * seq_product(p),
                ),
    );
    let rest = Seq::new(n, |c: int| pairs[c].0);
    let count = Seq::new(n, |c: int| pairs[c].1);
    assert forall|c: int| 0 <= c < n implies 0 <= (#[trigger] pairs[c]).0 < big && 0 <= pairs[c].1
        < p.len() && has_residues(pairs[c].0, tail, p, c) && is_divided(
        down,
        coefficients,
        q,
        key.aux_inv(),
        c,
        pairs[c].0 + pairs[c].1 * big,
    ) by {
        assert forall|i: int| 0 <= i < coefficients.len() implies (#[trigger] coefficients[i]).len()
            == n by {
            lemma_coefficients_value(ctx, acc, i, 0);
        }
        assert forall|k: int| 0 <= k < p.len() implies coefficients[q.len() + k][c] < #[trigger] p[k] by {
            lemma_coefficients_value(ctx, acc, l + k, 0);
            assert(ctx.moduli()[l + k] == p[k]);
        }
        assert forall|k: int, i: int| 0 <= k < p.len() && 0 <= i < q.len() implies (
        #[trigger] key.aux_hat_modq()[k][i]) == (seq_product(p) / p[k]) % q[i] by {
            assert(as_ints(key.chain())[i] == q[i]);
        }
        assert forall|k: int| 0 <= k < p.len() implies inverse_of(
            seq_product(p) / #[trigger] p[k],
            key.aux_hat_inv()[k] as int,
            p[k],
        ) by {}
        lemma_coefficients_value(ctx, acc, 0, 0);
        lemma_mod_down_subtracts(
            coefficients,
            q,
            p,
            key.aux_hat_inv(),
            key.aux_hat_modq(),
            key.aux_inv(),
            n,
            c,
        );
    }
    assert forall|c: int| 0 <= c < n implies 0 <= (#[trigger] rest[c]) < big by {
        assert(rest[c] == pairs[c].0);
    }
    assert forall|c: int| 0 <= c < n implies 0 <= (#[trigger] count[c]) < p.len() by {
        assert(count[c] == pairs[c].1);
    }
    assert forall|c: int| 0 <= c < n implies #[trigger] has_residues(rest[c], tail, p, c) by {
        assert(rest[c] == pairs[c].0);
    }
    assert forall|c: int| 0 <= c < n implies #[trigger] is_divided(
        down,
        coefficients,
        q,
        key.aux_inv(),
        c,
        rest[c] + count[c] * big,
    ) by {
        assert(rest[c] == pairs[c].0);
        assert(count[c] == pairs[c].1);
    }
    (rest, count)
}

} // verus!
