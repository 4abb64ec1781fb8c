//! What a switch between chains of moduli keeps: the number that the
//! residues stand for, up to a small multiple of the source product.

use crate::basis::{approx_switch, mod_down, switch_sum};
use crate::modulus::{
    inverse_of, lemma_product_bound, lemma_product_multiple, scale_seq, seq_product, sub_seq,
};
use vstd::arithmetic::div_mod::*;
use vstd::arithmetic::mul::*;
use vstd::prelude::*;

verus! {

/// The product of a sequence followed by another.
pub proof fn lemma_product_concat(a: Seq<int>, b: Seq<int>)
    ensures
        seq_product(a + b) == seq_product(a) * seq_product(b),
    decreases b.len(),
{
    if b.len() == 0 {
        assert(a + b =~= a);
        assert(seq_product(a) * 1 == seq_product(a));
    } else {
        assert((a + b).drop_last() =~= a + b.drop_last());
        lemma_product_concat(a, b.drop_last());
        assert((seq_product(a) * seq_product(b.drop_last())) * b.last() == seq_product(a) * (
        seq_product(b.drop_last()) * b.last())) by (nonlinear_arith);
    }
}

/// The product without modulus `i` is the product of the moduli before it
/// times the product of the moduli after it.
pub proof fn lemma_hat_split(s: Seq<int>, i: int)
    requires
        0 <= i < s.len(),
        s[i] > 0,
    ensures
        seq_product(s) / s[i] == seq_product(s.take(i)) * seq_product(s.skip(i + 1)),
        seq_product(s) == s[i] * (seq_product(s) / s[i]),
{
    let a = s.take(i);
    let m = seq![s[i]];
    let b = s.skip(i + 1);
    assert(s =~= (a + m) + b);
    lemma_product_concat(a + m, b);
    lemma_product_concat(a, m);
    assert(m.drop_last().len() == 0);
    assert(seq_product(m.drop_last()) == 1);
    assert(m.last() == s[i]);
    assert(seq_product(m) == 1 * s[i]);
    let pa = seq_product(a);
    let pb = seq_product(b);
    assert((pa * s[i]) * pb == s[i] * (pa * pb)) by (nonlinear_arith);
    lemma_div_multiples_vanish(pa * pb, s[i]);
}

/// The product without modulus `l` is a multiple of every other modulus.
pub proof fn lemma_hat_multiple(s: Seq<int>, i: int, l: int)
    requires
        0 <= i < s.len(),
        0 <= l < s.len(),
        i != l,
        s[l] > 0,
    ensures
        exists|f: int| seq_product(s) / s[l] == #[trigger] (s[i] * f),
{
    lemma_hat_split(s, l);
    let a = s.take(l);
    let b = s.skip(l + 1);
    let pa = seq_product(a);
    let pb = seq_product(b);
    if i < l {
        lemma_product_multiple(a, i);
        let f0 = choose|f: int| seq_product(a) == #[trigger] (a[i] * f);
        assert(pa * pb == s[i] * (f0 * pb)) by (nonlinear_arith)
            requires
                pa == s[i] * f0,
        ;
    } else {
        lemma_product_multiple(b, i - l - 1);
        let f0 = choose|f: int| seq_product(b) == #[trigger] (b[i - l - 1] * f);
        assert(pa * pb == s[i] * (pa * f0)) by (nonlinear_arith)
            requires
                pb == s[i] * f0,
        ;
    }
}

/// The number that the switch forms for coefficient `j` from the first
/// `upto` source moduli: the sum of `(x * q_hat_inv mod q) * (Q / q)`.
pub open spec fn switched_number(
    x: Seq<Seq<u64>>,
    q: Seq<int>,
    q_hat_inv: Seq<u64>,
    j: int,
    upto: nat,
) -> int
    decreases upto,
{
    if upto == 0 {
        0
    } else {
        let i = upto - 1;
        switched_number(x, q, q_hat_inv, j, i as nat) + ((x[i][j] * q_hat_inv[i]) % q[i]) * (
        seq_product(q) / q[i])
    }
}

/// Under a target modulus the kernel's sum is the switched number.
pub proof fn lemma_sum_is_number(
    x: Seq<Seq<u64>>,
    q: Seq<int>,
    q_hat_inv: Seq<u64>,
    q_hat_modp: Seq<Seq<u64>>,
    p: int,
    k: int,
    j: int,
    upto: nat,
)
    requires
        p > 0,
        upto <= q.len(),
        forall|i: int| 0 <= i < q.len() ==> (#[trigger] q_hat_modp[i])[k] == (seq_product(q) / q[i]) % p,
    ensures
        switch_sum(x, q, q_hat_inv, q_hat_modp, k, j, upto) % p == switched_number(
            x,
            q,
            q_hat_inv,
            j,
            upto,
        ) % p,
    decreases upto,
{
    if upto > 0 {
        let i = (upto - 1) as int;
        lemma_sum_is_number(x, q, q_hat_inv, q_hat_modp, p, k, j, i as nat);
        let t = (x[i][j] * q_hat_inv[i]) % q[i];
        let hat = seq_product(q) / q[i];
        assert(q_hat_modp[i][k] == hat % p);
        lemma_mul_mod_noop_general(t, hat, p);
        lemma_add_mod_noop(
            switch_sum(x, q, q_hat_inv, q_hat_modp, k, j, i as nat),
            t * q_hat_modp[i][k],
            p,
        );
        lemma_add_mod_noop(switched_number(x, q, q_hat_inv, j, i as nat), t * hat, p);
    }
}

/// The switched number has the residues that it was formed from, and lies
/// below the source product times the number of moduli.
pub proof fn lemma_number_residues(
    x: Seq<Seq<u64>>,
    q: Seq<int>,
    q_hat_inv: Seq<u64>,
    j: int,
    upto: nat,
    i: int,
)
    requires
        upto <= q.len(),
        0 <= i < q.len(),
        forall|l: int| 0 <= l < q.len() ==> (#[trigger] q[l]) >= 2,
        forall|l: int| 0 <= l < q.len() ==> x[l][j] < #[trigger] q[l],
        forall|l: int|
            0 <= l < q.len() ==> inverse_of(
                seq_product(q) / #[trigger] q[l],
                q_hat_inv[l] as int,
                q[l],
            ),
    ensures
        switched_number(x, q, q_hat_inv, j, upto) % q[i] == if i < upto {
            x[i][j] as int
        } else {
            0
        },
        0 <= switched_number(x, q, q_hat_inv, j, upto) <= upto * (seq_product(q) - 1),
    decreases upto,
{
    let big = seq_product(q);
    lemma_product_bound(q, i);
    if upto == 0 {
        lemma_small_mod(0, q[i] as nat);
        assert(0 * (big - 1) == 0);
    } else {
        let l = (upto - 1) as int;
        lemma_number_residues(x, q, q_hat_inv, j, l as nat, i);
        let before = switched_number(x, q, q_hat_inv, j, l as nat);
        let t = (x[l][j] * q_hat_inv[l]) % q[l];
        let hat = big / q[l];
        lemma_hat_split(q, l);
        lemma_mod_bound(x[l][j] * q_hat_inv[l], q[l]);
        // the term lies below the product
        assert(q[l] >= 2);
        assert(0 <= t * hat <= big - 1) by (nonlinear_arith)
            requires
                0 <= t < q[l],
                big == q[l] * hat,
                big >= 1,
                q[l] >= 2,
        ;
        assert(upto * (big - 1) == l * (big - 1) + (big - 1)) by (nonlinear_arith)
            requires
                upto == l + 1,
        ;
        // its residue under modulus i
        if i == l {
            assert(inverse_of(hat, q_hat_inv[l] as int, q[l]));
            lemma_mul_mod_noop_general(x[l][j] * q_hat_inv[l], hat, q[l]);
            assert((x[l][j] * q_hat_inv[l]) * hat == x[l][j] * (hat * q_hat_inv[l]))
                by (nonlinear_arith);
            lemma_mul_mod_noop_general(x[l][j] as int, hat * q_hat_inv[l], q[l]);
            assert(x[l][j] * 1 == x[l][j]);
            lemma_small_mod(x[l][j] as nat, q[l] as nat);
            assert((t * hat) % q[i] == x[i][j]);
            lemma_add_mod_noop(before, t * hat, q[i]);
            lemma_small_mod(0, q[i] as nat);
        } else {
            lemma_hat_multiple(q, i, l);
            let f = choose|f: int| seq_product(q) / q[l] == #[trigger] (q[i] * f);
            assert(t * hat == q[i] * (t * f)) by (nonlinear_arith)
                requires
                    hat == q[i] * f,
            ;
            lemma_mod_multiples_vanish(t * f, before, q[i]);
            assert((before + t * hat) % q[i] == before % q[i]);
        }
    }
}

/// A number that every modulus divides is a multiple of the product, when
/// every modulus has an inverse of the product of the others.
pub proof fn lemma_common_multiple(q: Seq<int>, q_hat_inv: Seq<u64>, d: int, m: nat)
    requires
        m <= q.len(),
        forall|l: int| 0 <= l < q.len() ==> (#[trigger] q[l]) >= 2,
        forall|l: int| 0 <= l < q.len() ==> d % (#[trigger] q[l]) == 0,
        forall|l: int|
            0 <= l < q.len() ==> inverse_of(
                seq_product(q) / #[trigger] q[l],
                q_hat_inv[l] as int,
                q[l],
            ),
    ensures
        seq_product(q.take(m as int)) >= 1,
        d % seq_product(q.take(m as int)) == 0,
    decreases m,
{
    let part = q.take(m as int);
    if m == 0 {
        assert(part.len() == 0);
        assert(d % 1 == 0);
    } else {
        let l = (m - 1) as int;
        lemma_common_multiple(q, q_hat_inv, d, l as nat);
        let before = seq_product(q.take(l));
        assert(part.drop_last() =~= q.take(l));
        assert(part.last() == q[l]);
        let ql = q[l];
        assert(ql >= 2);
        assert(before * ql >= 1) by (nonlinear_arith)
            requires
                before >= 1,
                ql >= 2,
        ;
        // the product of the earlier moduli has an inverse modulo this one
        lemma_hat_split(q, l);
        let after = seq_product(q.skip(l + 1));
        let h = q_hat_inv[l] as int;
        let c = after * h;
        assert(inverse_of(before * after, h, ql));
        assert((before * after) * h == before * c) by (nonlinear_arith)
            requires
                c == after * h,
        ;
        lemma_fundamental_div_mod(before * c, ql);
        let e = (before * c) / ql;
        // both divide d
        lemma_fundamental_div_mod(d, before);
        lemma_fundamental_div_mod(d, ql);
        let d1 = d / before;
        let d2 = d / ql;
        assert(d == (before * ql) * (d2 * c - d1 * e)) by (nonlinear_arith)
            requires
                before * c == ql * e + 1,
                d == before * d1,
                d == ql * d2,
        ;
        lemma_mod_multiples_basic(d2 * c - d1 * e, before * ql);
        lemma_mul_is_commutative(before * ql, d2 * c - d1 * e);
    }
}

/// Under every target modulus, coefficient `j` of `out` is the residue of
/// `number + u * product`.
pub open spec fn is_shifted(out: Seq<Seq<u64>>, p: Seq<u64>, j: int, number: int, product: int, u: int) -> bool {
    forall|k: int|
        0 <= k < p.len() ==> (#[trigger] out[k])[j] == (number + u * product) % (p[k] as int)
}

/// A switch keeps the number up to a small multiple of the source product:
/// where `number` lies below the product of the source moduli and has the
/// residues `x` at coefficient `j`, there is a count `u` below the number of
/// source moduli such that under every target modulus the switch gives the
/// residue of `number + u * product`.
pub proof fn lemma_switch_approximates(
    x: Seq<Seq<u64>>,
    q: Seq<int>,
    q_hat_inv: Seq<u64>,
    q_hat_modp: Seq<Seq<u64>>,
    p: Seq<u64>,
    n: nat,
    j: int,
    number: int,
)
    requires
        q.len() >= 1,
        x.len() == q.len(),
        0 <= j < n,
        forall|l: int| 0 <= l < q.len() ==> (#[trigger] q[l]) >= 2,
        forall|l: int| 0 <= l < q.len() ==> x[l][j] < #[trigger] q[l],
        forall|l: int|
            0 <= l < q.len() ==> inverse_of(
                seq_product(q) / #[trigger] q[l],
                q_hat_inv[l] as int,
                q[l],
            ),
        forall|l: int, k: int|
            0 <= l < q.len() && 0 <= k < p.len() ==> (#[trigger] q_hat_modp[l][k]) == (
            seq_product(q) / q[l]) % (p[k] as int),
        forall|k: int| 0 <= k < p.len() ==> (#[trigger] p[k]) > 0,
        0 <= number < seq_product(q),
        forall|l: int| 0 <= l < q.len() ==> number % (#[trigger] q[l]) == x[l][j],
    ensures
        exists|u: int|
            0 <= u < q.len() && #[trigger] is_shifted(
                approx_switch(x, q, q_hat_inv, q_hat_modp, p, n),
                p,
                j,
                number,
                seq_product(q),
                u,
            ),
{
    let big = seq_product(q);
    let y = switched_number(x, q, q_hat_inv, j, q.len());
    let d = y - number;
    lemma_number_residues(x, q, q_hat_inv, j, q.len(), 0);
    assert forall|l: int| 0 <= l < q.len() implies d % (#[trigger] q[l]) == 0 by {
        lemma_number_residues(x, q, q_hat_inv, j, q.len(), l);
        lemma_sub_mod_noop(y, number, q[l]);
        lemma_small_mod(0, q[l] as nat);
    }
    lemma_common_multiple(q, q_hat_inv, d, q.len());
    assert(q.take(q.len() as int) =~= q);
    lemma_fundamental_div_mod(d, big);
    let u = d / big;
    assert(y == number + u * big) by (nonlinear_arith)
        requires
            d == big * u,
            d == y - number,
    ;
    assert(0 <= u < q.len()) by (nonlinear_arith)
        requires
            y == number + u * big,
            0 <= number < big,
            0 <= y <= q.len() * (big - 1),
            big >= 1,
            q.len() >= 1,
    ;
    assert forall|k: int| 0 <= k < p.len() implies (#[trigger] approx_switch(
        x,
        q,
        q_hat_inv,
        q_hat_modp,
        p,
        n,
    )[k])[j] == (number + u * big) % (p[k] as int) by {
        assert forall|l: int| 0 <= l < q.len() implies (#[trigger] q_hat_modp[l])[k] == (big / q[l])
            % (p[k] as int) by {
            assert(q_hat_modp[l][k] == (big / q[l]) % (p[k] as int));
        }
        lemma_sum_is_number(x, q, q_hat_inv, q_hat_modp, p[k] as int, k, j, q.len());
        lemma_mod_bound(y, p[k] as int);
    }
    assert(is_shifted(approx_switch(x, q, q_hat_inv, q_hat_modp, p, n), p, j, number, big, u));
}

/// Under every one of the first moduli, coefficient `j` of `out` is the
/// residue of `quotient - u`.
pub open spec fn is_lowered(out: Seq<Seq<u64>>, q: Seq<int>, j: int, quotient: int, u: int) -> bool {
    forall|i: int| 0 <= i < q.len() ==> (#[trigger] out[i])[j] == (quotient - u) % q[i]
}

/// Bringing down divides by the auxiliary product, up to a small count:
/// where `number` has the residues `x` at coefficient `j` under the moduli
/// `q` followed by the auxiliary moduli `p`, there is a count `u` below the
/// number of auxiliary moduli such that under every modulus of `q` the result
/// is the residue of `number` divided by the product of `p`, rounded down,
/// less `u`.
pub proof fn lemma_mod_down_divides(
    x: Seq<Seq<u64>>,
    q: Seq<int>,
    p: Seq<int>,
    p_hat_inv_modp: Seq<u64>,
    p_hat_modq: Seq<Seq<u64>>,
    p_inv_modq: Seq<u64>,
    n: nat,
    j: int,
    number: int,
)
    requires
        q.len() >= 1,
        p.len() >= 1,
        x.len() == q.len() + p.len(),
        0 <= j < n,
        forall|i: int| 0 <= i < q.len() ==> 2 <= (#[trigger] q[i]) <= u64::MAX,
        forall|k: int| 0 <= k < p.len() ==> (#[trigger] p[k]) >= 2,
        forall|i: int| 0 <= i < x.len() ==> (#[trigger] x[i]).len() == n,
        forall|k: int|
            0 <= k < p.len() ==> inverse_of(
                seq_product(p) / #[trigger] p[k],
                p_hat_inv_modp[k] as int,
                p[k],
            ),
        forall|k: int, i: int|
            0 <= k < p.len() && 0 <= i < q.len() ==> (#[trigger] p_hat_modq[k][i]) == (seq_product(
                p,
            ) / p[k]) % q[i],
        forall|i: int|
            0 <= i < q.len() ==> inverse_of(seq_product(p), p_inv_modq[i] as int, #[trigger] q[i]),
        0 <= number,
        forall|i: int| 0 <= i < q.len() ==> number % (#[trigger] q[i]) == x[i][j],
        forall|k: int| 0 <= k < p.len() ==> number % (#[trigger] p[k]) == x[q.len() + k][j],
    ensures
        exists|u: int|
            0 <= u < p.len() && #[trigger] is_lowered(
                mod_down(x, q, p, p_hat_inv_modp, p_hat_modq, p_inv_modq, n),
                q,
                j,
                number / seq_product(p),
                u,
            ),
{
    let big = seq_product(p);
    lemma_product_bound(p, 0);
    let low = number % big;
    let quotient = number / big;
    lemma_fundamental_div_mod(number, big);
    lemma_mod_bound(number, big);
    let tail = x.subrange(q.len() as int, x.len() as int);
    let targets = Seq::new(q.len(), |i: int| q[i] as u64);
    // the part below the product has the auxiliary residues of the number
    assert forall|k: int| 0 <= k < p.len() implies low % (#[trigger] p[k]) == tail[k][j] && tail[k][j]
        < p[k] by {
        lemma_product_multiple(p, k);
        let f = choose|f: int| seq_product(p) == #[trigger] (p[k] * f);
        assert(f > 0) by (nonlinear_arith)
            requires
                big == p[k] * f,
                big >= 1,
                p[k] >= 2,
        ;
        lemma_mod_mod(number, p[k], f);
        assert(tail[k] == x[q.len() + k]);
        lemma_mod_bound(number, p[k]);
    }
    assert forall|l: int, k: int| 0 <= l < p.len() && 0 <= k < targets.len() implies (
    #[trigger] p_hat_modq[l][k]) == (seq_product(p) / p[l]) % (targets[k] as int) by {
        assert(targets[k] == q[k]);
    }
    assert forall|k: int| 0 <= k < targets.len() implies (#[trigger] targets[k]) > 0 by {
        assert(q[k] >= 2);
    }
    lemma_switch_approximates(tail, p, p_hat_inv_modp, p_hat_modq, targets, n, j, low);
    let switched = approx_switch(tail, p, p_hat_inv_modp, p_hat_modq, targets, n);
    let u = choose|u: int| 0 <= u < p.len() && #[trigger] is_shifted(switched, targets, j, low, big, u);
    let out = mod_down(x, q, p, p_hat_inv_modp, p_hat_modq, p_inv_modq, n);
    assert forall|i: int| 0 <= i < q.len() implies (#[trigger] out[i])[j] == (quotient - u) % q[i] by {
        let qi = q[i];
        let inv = p_inv_modq[i] as int;
        assert(targets[i] == qi);
        assert(switched[i][j] == (low + u * big) % qi);
        lemma_mod_bound(low + u * big, qi);
        let diff = (x[i][j] - switched[i][j]) % qi;
        lemma_mod_bound(x[i][j] - switched[i][j], qi);
        let lowered = sub_seq(x[i], switched[i], qi);
        assert(lowered[j] == diff);
        assert(out[i] == scale_seq(lowered, inv, qi));
        assert(out[i][j] == (diff * inv) % qi);
        // the difference is the product times the quotient less u
        lemma_sub_mod_noop(number, low + u * big, qi);
        assert(number - (low + u * big) == big * (quotient - u)) by (nonlinear_arith)
            requires
                number == big * quotient + low,
        ;
        assert(diff == (big * (quotient - u)) % qi);
        lemma_mul_mod_noop_general(big * (quotient - u), inv, qi);
        assert((big * (quotient - u)) * inv == (quotient - u) * (big * inv)) by (nonlinear_arith);
        lemma_mul_mod_noop_general(quotient - u, big * inv, qi);
        assert((quotient - u) % qi * 1 == (quotient - u) % qi);
        lemma_mod_twice(quotient - u, qi);
    }
    assert(is_lowered(out, q, j, quotient, u));
}

/// `number` has the residues `x` at coefficient `j` under the moduli `q`.
pub open spec fn has_residues(number: int, x: Seq<Seq<u64>>, q: Seq<int>, j: int) -> bool {
    forall|l: int| 0 <= l < q.len() ==> number % (#[trigger] q[l]) == x[l][j]
}

/// Residues stand for a number: where every modulus has an inverse of the
/// product of the others, some number below the product has the residues.
pub proof fn lemma_number_exists(x: Seq<Seq<u64>>, q: Seq<int>, q_hat_inv: Seq<u64>, j: int)
    requires
        q.len() >= 1,
        forall|l: int| 0 <= l < q.len() ==> (#[trigger] q[l]) >= 2,
        forall|l: int| 0 <= l < q.len() ==> x[l][j] < #[trigger] q[l],
        forall|l: int|
            0 <= l < q.len() ==> inverse_of(
                seq_product(q) / #[trigger] q[l],
                q_hat_inv[l] as int,
                q[l],
            ),
    ensures
        exists|number: int|
            0 <= number < seq_product(q) && #[trigger] has_residues(number, x, q, j),
{
    let big = seq_product(q);
    lemma_product_bound(q, 0);
    let y = switched_number(x, q, q_hat_inv, j, q.len());
    let number = y % big;
    lemma_mod_bound(y, big);
    assert forall|l: int| 0 <= l < q.len() implies number % (#[trigger] q[l]) == x[l][j] by {
        lemma_number_residues(x, q, q_hat_inv, j, q.len(), l);
        lemma_product_multiple(q, l);
        let f = choose|f: int| seq_product(q) == #[trigger] (q[l] * f);
        assert(f > 0) by (nonlinear_arith)
            requires
                big == q[l] * f,
                big >= 1,
                q[l] >= 2,
        ;
        lemma_mod_mod(y, q[l], f);
    }
    assert(has_residues(number, x, q, j));
}

} // verus!
