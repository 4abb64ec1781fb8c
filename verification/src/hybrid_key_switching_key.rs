//! Key switching in the hybrid variant: the rows of the input are taken
//! in digits, every digit is embedded in the chain extended by an auxiliary
//! chain, and the result is brought back down.

use crate::basis::{approx_switch, mod_down, values_of};
use crate::bigint::{bit_length, BigNat};
use crate::key_switching_key::{
    accumulate, accumulated_rows, all_in, block_of, error_block, is_small, lemma_block_small,
    rows_of, secret_rows, seeded_polys, seeded_rows, words_per_poly, ERROR_BOUND,
};
use crate::matrix::{rectangular, Matrix};
use crate::modulus::{
    add_seq, as_ints, inverse_of, mul_seq, no_inverse, reduced, scale_seq, seq_product, sub_seq,
    Modulus,
};
use crate::nb_theory::{chain_exhausted, generate_chain, is_generated_chain};
use crate::parameters::Error;
use crate::poly::{
    backward_rows, context_supported, forward_rows, lift_i64_rows, matrix_from_rows, same_chain,
    share, Poly, PolyContext, Representation,
};
use crate::sampling::{draw_seed, draw_words};
use crate::secret_key::SecretKey;
use rand_chacha::ChaCha8Rng;
use std::sync::Arc;
use vstd::prelude::*;

verus! {

/// The first row of digit `j` when every digit spans `dnum` rows.
pub open spec fn group_start(j: int, dnum: int) -> int {
    j * dnum
}

/// The row after the last row of digit `j` among `l` rows.
pub open spec fn group_end(j: int, dnum: int, l: int) -> int {
    if l - j * dnum > dnum {
        j * dnum + dnum
    } else {
        l
    }
}

/// The moduli that digit `j` is switched to: the moduli of the chain `q`
/// outside the digit, then the auxiliary moduli `p`.
pub open spec fn digit_targets(q: Seq<u64>, p: Seq<u64>, start: int, end: int) -> Seq<u64> {
    q.take(start) + q.skip(end) + p
}

/// `hat_inv` and `hat_modp` are the constants that switch residues under
/// `moduli` to residues under `targets`: for every modulus, the inverse of
/// the product of the others, and that product under every target.
pub open spec fn is_switch_constants(
    moduli: Seq<int>,
    targets: Seq<u64>,
    hat_inv: Seq<u64>,
    hat_modp: Seq<Seq<u64>>,
) -> bool {
    &&& hat_inv.len() == moduli.len()
    &&& hat_modp.len() == moduli.len()
    &&& rectangular(hat_modp, targets.len() as int)
    &&& forall|i: int|
        0 <= i < moduli.len() ==> (#[trigger] hat_inv[i]) < moduli[i] && inverse_of(
            seq_product(moduli) / moduli[i],
            hat_inv[i] as int,
            moduli[i],
        )
    &&& forall|i: int, k: int|
        0 <= i < moduli.len() && 0 <= k < targets.len() ==> (#[trigger] hat_modp[i][k]) == (
        seq_product(moduli) / moduli[i]) % (targets[k] as int)
}

/// The rows of a digit embedded in the combined chain: its own rows stay in
/// place, the switched rows fill the places before and after.
pub open spec fn embedded_rows(x: Seq<Seq<u64>>, switched: Seq<Seq<u64>>, start: int, end: int) -> Seq<
    Seq<u64>,
> {
    Seq::new(
        (switched.len() + (end - start)) as nat,
        |r: int|
            if r < start {
                switched[r]
            } else if r < end {
                x[r]
            } else {
                switched[r - (end - start)]
            },
    )
}

/// The product of the moduli.
pub fn product_of(ops: &Vec<Modulus>) -> (r: BigNat)
    ensures
        r@ == seq_product(values_of(ops@)),
        r@ >= 1,
        ops@.len() >= 1 ==> r@ >= 2,
{
    let count: usize = ops.len();
    let mut r = BigNat::from_u64(1);
    let mut i: usize = 0;
    proof {
        assert(values_of(ops@).take(0).len() == 0);
    }
    while i < count
        invariant
            i <= count,
            count == ops@.len(),
            r@ == seq_product(values_of(ops@).take(i as int)),
            r@ >= 1,
            i >= 1 ==> r@ >= 2,
        decreases count - i,
    {
        let q: u64 = ops[i].modulus();
        let ghost before = r@;
        r = r.mul(&BigNat::from_u64(q));
        proof {
            let a = values_of(ops@).take(i as int);
            let b = values_of(ops@).take(i + 1);
            assert(b.drop_last() =~= a);
            assert(b.last() == q);
            assert(before * q >= 2) by (nonlinear_arith)
                requires
                    before >= 1,
                    q >= 2,
            ;
        }
        i += 1;
    }
    proof {
        assert(values_of(ops@).take(count as int) =~= values_of(ops@));
    }
    r
}

/// The constants that switch residues under `ops` to residues under
/// `targets`, or nothing when the product of the other moduli has no inverse
/// modulo one of `ops`.
pub fn switch_constants(ops: &Vec<Modulus>, targets: &Vec<u64>) -> (r: Option<(Vec<u64>, Matrix)>)
    requires
        forall|k: int| 0 <= k < targets@.len() ==> (#[trigger] targets@[k]) > 0,
        ops@.len() <= isize::MAX,
        targets@.len() <= isize::MAX,
        ops@.len() * targets@.len() <= isize::MAX,
    ensures
        match r {
            Some((hat_inv, hat_modp)) => is_switch_constants(
                values_of(ops@),
                targets@,
                hat_inv@,
                hat_modp@,
            ),
            None => exists|i: int|
                0 <= i < ops@.len() && no_inverse(
                    seq_product(values_of(ops@)) / (#[trigger] values_of(ops@)[i]),
                    values_of(ops@)[i],
                ),
        },
{
    let count: usize = ops.len();
    let width: usize = targets.len();
    let product = product_of(ops);
    let ghost moduli = values_of(ops@);
    let mut hat_inv: Vec<u64> = Vec::with_capacity(count);
    let mut rows: Vec<Vec<u64>> = Vec::with_capacity(count);
    let mut i: usize = 0;
    while i < count
        invariant
            i <= count,
            count == ops@.len(),
            width == targets@.len(),
            moduli == values_of(ops@),
            product@ == seq_product(moduli),
            forall|k: int| 0 <= k < targets@.len() ==> (#[trigger] targets@[k]) > 0,
            hat_inv@.len() == i,
            rows@.len() == i,
            forall|r: int| 0 <= r < i ==> (#[trigger] rows@[r])@.len() == width,
            forall|r: int|
                0 <= r < i ==> (#[trigger] hat_inv@[r]) < moduli[r] && inverse_of(
                    seq_product(moduli) / moduli[r],
                    hat_inv@[r] as int,
                    moduli[r],
                ),
            forall|r: int, k: int|
                0 <= r < i && 0 <= k < width ==> (#[trigger] rows@[r]@[k]) == (seq_product(moduli)
                    / moduli[r]) % (targets@[k] as int),
        decreases count - i,
    {
        let m = ops[i];
        let q: u64 = m.modulus();
        let hat = product.div(&BigNat::from_u64(q));
        let rest: u64 = hat.rem_u64(q);
        match m.inv(rest) {
            None => {
                proof {
                    assert forall|y: int| !#[trigger] inverse_of(hat@ as int, y, q as int) by {
                        vstd::arithmetic::div_mod::lemma_mul_mod_noop_general(
                            hat@ as int,
                            y,
                            q as int,
                        );
                        assert(!inverse_of(rest as int, y, q as int));
                    }
                    assert(moduli[i as int] == q);
                    assert(no_inverse(seq_product(moduli) / moduli[i as int], moduli[i as int]));
                }
                return None;
            },
            Some(x) => {
                proof {
                    vstd::arithmetic::div_mod::lemma_mul_mod_noop_general(
                        hat@ as int,
                        x as int,
                        q as int,
                    );
                    assert(moduli[i as int] == q);
                }
                hat_inv.push(x);
            },
        }
        let mut row: Vec<u64> = Vec::with_capacity(width);
        let mut k: usize = 0;
        while k < width
            invariant
                k <= width,
                width == targets@.len(),
                forall|c: int| 0 <= c < targets@.len() ==> (#[trigger] targets@[c]) > 0,
                row@.len() == k,
                forall|c: int| 0 <= c < k ==> (#[trigger] row@[c]) == hat@ % (targets@[c] as nat),
            decreases width - k,
        {
            row.push(hat.rem_u64(targets[k]));
            k += 1;
        }
        rows.push(row);
        i += 1;
    }
    let hat_modp = matrix_from_rows(&rows, width);
    proof {
        assert forall|r: int| 0 <= r < hat_modp@.len() implies (#[trigger] hat_modp@[r]).len()
            == width by {
            assert(hat_modp@[r] == rows@[r]@);
        }
        assert forall|r: int, k: int| 0 <= r < count && 0 <= k < width implies (
        #[trigger] hat_modp@[r][k]) == (seq_product(moduli) / moduli[r]) % (targets@[k] as int) by {
            assert(hat_modp@[r] == rows@[r]@);
            assert(rows@[r]@[k] == (seq_product(moduli) / moduli[r]) % (targets@[k] as int));
        }
    }
    Some((hat_inv, hat_modp))
}

/// The first component of a key element of the hybrid variant: under the
/// moduli of the source chain `e + g * a - c1 * s`, under the auxiliary
/// moduli, where `g` vanishes, `e - c1 * s`.
pub open spec fn hybrid_c0_rows(
    g: nat,
    a: Seq<Seq<u64>>,
    c1: Seq<Seq<u64>>,
    s: Seq<Seq<u64>>,
    e: Seq<Seq<u64>>,
    moduli: Seq<int>,
    q_count: int,
) -> Seq<Seq<u64>> {
    Seq::new(
        moduli.len(),
        |i: int|
            if i < q_count {
                sub_seq(
                    add_seq(e[i], scale_seq(a[i], (g as int) % moduli[i], moduli[i]), moduli[i]),
                    mul_seq(c1[i], s[i], moduli[i]),
                    moduli[i],
                )
            } else {
                sub_seq(e[i], mul_seq(c1[i], s[i], moduli[i]), moduli[i])
            },
    )
}

/// The first component `c0` is built on `g`, the polynomial `a`, the second
/// component, the secret and the errors `e`.
pub open spec fn is_hybrid_c0(
    c0: Poly,
    g: nat,
    a: Seq<Seq<u64>>,
    c1: Seq<Seq<u64>>,
    sk: Seq<i64>,
    e: Seq<i64>,
    qp: PolyContext,
    q_count: int,
) -> bool {
    c0.rows() == hybrid_c0_rows(
        g,
        a,
        c1,
        secret_rows(sk, qp),
        forward_rows(lift_i64_rows(e, qp.moduli()), qp),
        qp.moduli(),
        q_count,
    )
}

/// The first component `c0` is built with some small errors.
pub open spec fn is_hybrid_element(
    c0: Poly,
    g: nat,
    a: Seq<Seq<u64>>,
    c1: Seq<Seq<u64>>,
    sk: Seq<i64>,
    qp: PolyContext,
    q_count: int,
) -> bool {
    exists|e: Seq<i64>|
        e.len() == qp.n() && is_small(e) && #[trigger] is_hybrid_c0(c0, g, a, c1, sk, e, qp, q_count)
}

/// The number of rows in a digit, where none is asked for.
pub const DIGIT_WIDTH: usize = 3;

/// The number of bits of an auxiliary modulus, where none is asked for.
pub const AUX_BITS: usize = 60;

/// `count` times the size `aux_bits`.
pub open spec fn aux_sizes(count: int, aux_bits: usize) -> Seq<usize> {
    Seq::new(count as nat, |i: int| aux_bits)
}

/// The contexts of the auxiliary chain `p` and of the two chains together
/// can be built, and the constants and the seeded words fit in memory.
pub open spec fn hybrid_supported(q: Seq<u64>, p: Seq<u64>, n: int, alpha: int) -> bool {
    &&& context_supported(p, n)
    &&& context_supported(q + p, n)
    &&& (q.len() + p.len()) * (q.len() + p.len()) <= isize::MAX
    &&& alpha * (2 * ((q.len() + p.len()) * n)) <= usize::MAX
}

/// The inverses that digit `j` needs exist.
pub open spec fn digit_invertible(q: Seq<int>, j: int, dnum: int) -> bool {
    let d = q.subrange(group_start(j, dnum), group_end(j, dnum, q.len() as int));
    constants_invertible(d) && !no_inverse(seq_product(q) / seq_product(d), seq_product(d))
}

/// The inverses that a key of the hybrid variant needs exist.
pub open spec fn hybrid_invertible(q: Seq<int>, p: Seq<int>, dnum: int) -> bool {
    &&& forall|j: int|
        0 <= j < digit_count(q.len() as int, dnum) ==> #[trigger] digit_invertible(q, j, dnum)
    &&& constants_invertible(p)
    &&& forall|i: int| 0 <= i < q.len() ==> !no_inverse(seq_product(p), #[trigger] q[i])
}

/// A key for the hybrid variant: one pair of polynomials for each digit of
/// the ciphertext chain, in the chain extended by an auxiliary chain, with the
/// constants that embed a digit into the extended chain and that bring a
/// result back down.
pub struct HybridKeySwitchingKey {
    ksk_ctx: Arc<PolyContext>,
    p_ctx: Arc<PolyContext>,
    qp_ctx: Arc<PolyContext>,
    q_moduli: Vec<u64>,
    p_moduli: Vec<u64>,
    seed: [u8; 32],
    q_hat_inv_modq_parts: Vec<Vec<u64>>,
    q_mod_ops_parts: Vec<Vec<Modulus>>,
    q_hat_modp_parts: Vec<Matrix>,
    p_moduli_parts: Vec<Vec<u64>>,
    p_hat_inv_modp: Vec<u64>,
    p_hat_modq: Matrix,
    p_inv_modq: Vec<u64>,
    dnum: usize,
    alpha: usize,
    c0s: Vec<Poly>,
    c1s: Vec<Poly>,
}

impl HybridKeySwitchingKey {
    #[verifier::type_invariant]
    spec fn type_inv(self) -> bool {
        self.wf()
    }

    /// The context of the polynomials to switch, which is that of the result.
    pub closed spec fn source(&self) -> PolyContext {
        *self.ksk_ctx
    }

    /// The context of the auxiliary chain.
    pub closed spec fn aux(&self) -> PolyContext {
        *self.p_ctx
    }

    /// The context of the two chains together.
    pub closed spec fn combined(&self) -> PolyContext {
        *self.qp_ctx
    }

    /// The moduli of the source chain.
    pub closed spec fn chain(&self) -> Seq<u64> {
        self.q_moduli@
    }

    /// The moduli of the auxiliary chain.
    pub closed spec fn aux_chain(&self) -> Seq<u64> {
        self.p_moduli@
    }

    /// The number of rows in a digit.
    pub closed spec fn digits(&self) -> nat {
        self.dnum as nat
    }

    /// The number of digits.
    pub closed spec fn parts(&self) -> nat {
        self.alpha as nat
    }

    /// The first components.
    pub closed spec fn c0_polys(&self) -> Seq<Poly> {
        self.c0s@
    }

    /// The second components.
    pub closed spec fn c1_polys(&self) -> Seq<Poly> {
        self.c1s@
    }

    /// The seed of the second components.
    pub closed spec fn seed_bytes(&self) -> Seq<u8> {
        self.seed@
    }

    /// The moduli of digit `j`.
    pub closed spec fn group_ops(&self, j: int) -> Seq<Modulus> {
        self.q_mod_ops_parts@[j]@
    }

    /// For digit `j`, the inverse of the product of the other moduli of the
    /// digit under each of its moduli.
    pub closed spec fn group_hat_inv(&self, j: int) -> Seq<u64> {
        self.q_hat_inv_modq_parts@[j]@
    }

    /// For digit `j`, the product of the other moduli of the digit under
    /// each modulus that the digit is switched to.
    pub closed spec fn group_hat_modp(&self, j: int) -> Seq<Seq<u64>> {
        self.q_hat_modp_parts@[j]@
    }

    /// The moduli that digit `j` is switched to.
    pub closed spec fn group_targets(&self, j: int) -> Seq<u64> {
        self.p_moduli_parts@[j]@
    }

    /// The inverse of the product of the other auxiliary moduli under each
    /// auxiliary modulus.
    pub closed spec fn aux_hat_inv(&self) -> Seq<u64> {
        self.p_hat_inv_modp@
    }

    /// The product of the other auxiliary moduli under each source modulus.
    pub closed spec fn aux_hat_modq(&self) -> Seq<Seq<u64>> {
        self.p_hat_modq@
    }

    /// The inverse of the product of the auxiliary moduli under each source
    /// modulus.
    pub closed spec fn aux_inv(&self) -> Seq<u64> {
        self.p_inv_modq@
    }

    /// There are constants for every digit.
    pub closed spec fn shaped(&self) -> bool {
        &&& self.q_hat_inv_modq_parts@.len() == self.alpha
        &&& self.q_mod_ops_parts@.len() == self.alpha
        &&& self.q_hat_modp_parts@.len() == self.alpha
        &&& self.p_moduli_parts@.len() == self.alpha
    }

    /// The constants of digit `j` are those of its moduli and its targets.
    pub open spec fn group_wf(&self, j: int) -> bool {
        let start = group_start(j, self.digits() as int);
        let end = group_end(j, self.digits() as int, self.chain().len() as int);
        &&& values_of(self.group_ops(j)) == self.source().moduli().subrange(start, end)
        &&& self.group_targets(j) == digit_targets(self.chain(), self.aux_chain(), start, end)
        &&& is_switch_constants(
            values_of(self.group_ops(j)),
            self.group_targets(j),
            self.group_hat_inv(j),
            self.group_hat_modp(j),
        )
    }

    /// The contexts, the pairs and the constants fit together.
    pub open spec fn wf(&self) -> bool {
        &&& self.shaped()
        &&& self.source().wf()
        &&& self.aux().wf()
        &&& self.combined().wf()
        &&& self.aux().n() == self.source().n()
        &&& self.combined().n() == self.source().n()
        &&& as_ints(self.chain()) == self.source().moduli()
        &&& as_ints(self.aux_chain()) == self.aux().moduli()
        &&& self.combined().moduli() == self.source().moduli() + self.aux().moduli()
        &&& self.digits() >= 1
        &&& self.parts() >= 1
        &&& (self.parts() - 1) * self.digits() < self.chain().len()
        &&& self.chain().len() <= self.parts() * self.digits()
        &&& self.c0_polys().len() == self.parts()
        &&& self.c1_polys().len() == self.parts()
        &&& all_in(self.c0_polys(), self.combined())
        &&& all_in(self.c1_polys(), self.combined())
        &&& forall|j: int| 0 <= j < self.parts() ==> #[trigger] self.group_wf(j)
        &&& is_switch_constants(
            self.aux().moduli(),
            self.chain(),
            self.aux_hat_inv(),
            self.aux_hat_modq(),
        )
        &&& self.aux_inv().len() == self.chain().len()
        &&& forall|i: int|
            0 <= i < self.chain().len() ==> (#[trigger] self.aux_inv()[i]) < self.chain()[i]
                && inverse_of(
                seq_product(self.aux().moduli()),
                self.aux_inv()[i] as int,
                self.chain()[i] as int,
            )
    }

    /// Digit `j` of the residues `x`, embedded in the combined chain: the
    /// rows of the digit stay, the other rows and the auxiliary rows are what
    /// the digit switches to.
    pub open spec fn digit_rows(&self, x: Seq<Seq<u64>>, j: int) -> Seq<Seq<u64>> {
        let start = group_start(j, self.digits() as int);
        let end = group_end(j, self.digits() as int, self.chain().len() as int);
        embedded_rows(
            x,
            approx_switch(
                x.subrange(start, end),
                values_of(self.group_ops(j)),
                self.group_hat_inv(j),
                self.group_hat_modp(j),
                self.group_targets(j),
                self.source().n(),
            ),
            start,
            end,
        )
    }

    /// The digits of the residues `x`, as values at the roots of the
    /// combined chain.
    pub open spec fn terms(&self, x: Seq<Seq<u64>>) -> Seq<Seq<Seq<u64>>> {
        Seq::new(self.parts(), |j: int| forward_rows(self.digit_rows(x, j), self.combined()))
    }

    /// The values `c` at the roots of the combined chain brought down to the
    /// source chain, as values at its roots.
    pub open spec fn brought_down(&self, c: Seq<Seq<u64>>) -> Seq<Seq<u64>> {
        forward_rows(
            mod_down(
                backward_rows(c, self.combined()),
                self.source().moduli(),
                self.aux().moduli(),
                self.aux_hat_inv(),
                self.aux_hat_modq(),
                self.aux_inv(),
                self.source().n(),
            ),
            self.source(),
        )
    }

    /// Digit `j` of the polynomial, embedded in the combined chain.
    fn embed_digit(&self, poly: &Poly, j: usize) -> (u: Poly)
        requires
            self.wf(),
            j < self.parts(),
            poly.wf(),
            poly.repr() == Representation::Coefficient,
            same_chain(poly.ctx(), self.source()),
        ensures
            u.wf(),
            u.ctx() == self.combined(),
            u.repr() == Representation::Evaluation,
            u.rows() == forward_rows(self.digit_rows(poly.rows(), j as int), self.combined()),
    {
        let n: usize = self.ksk_ctx.degree();
        let l: usize = self.ksk_ctx.moduli_count();
        let total: usize = self.qp_ctx.moduli_count();
        let ghost x = poly.rows();
        proof {
            self.source().lemma_wf();
            self.aux().lemma_wf();
            self.combined().lemma_wf();
            assert(self.group_wf(j as int));
            assert(j * self.dnum <= (self.alpha - 1) * self.dnum) by (nonlinear_arith)
                requires
                    j <= self.alpha - 1,
                    self.dnum >= 0,
            ;
            assert(self.chain().len() == l);
        }
        let start: usize = j * self.dnum;
        let end: usize = if l - start > self.dnum {
            start + self.dnum
        } else {
            l
        };
        let len: usize = end - start;
        assert(start == group_start(j as int, self.digits() as int));
        assert(end == group_end(j as int, self.digits() as int, self.chain().len() as int));
        // the rows of the digit
        let mut own: Vec<Vec<u64>> = Vec::with_capacity(len);
        let mut r: usize = start;
        while r < end
            invariant
                start <= r <= end,
                end <= l,
                l == poly.ctx().moduli().len(),
                poly.wf(),
                x == poly.rows(),
                n == poly.ctx().n(),
                own@.len() == r - start,
                forall|k: int| 0 <= k < r - start ==> (#[trigger] own@[k])@ == x[start + k],
                forall|k: int| 0 <= k < r - start ==> (#[trigger] own@[k])@.len() == n,
            decreases end - r,
        {
            own.push(poly.row(r));
            r += 1;
        }
        proof {
            assert(len * n <= l * n) by (nonlinear_arith)
                requires
                    len <= l,
                    n >= 0,
            ;
        }
        let digit = matrix_from_rows(&own, n);
        let ops = &self.q_mod_ops_parts[j];
        let targets = &self.p_moduli_parts[j];
        proof {
            assert(digit@ =~= x.subrange(start as int, end as int));
            assert forall|k: int| 0 <= k < digit@.len() implies (#[trigger] digit@[k]).len() == n
                && reduced(digit@[k], values_of(ops@)[k]) by {
                assert(digit@[k] == x[start + k]);
                assert(values_of(ops@)[k] == self.source().moduli()[start + k]);
            }
            assert(targets@.len() == l - len + (total - l));
            assert forall|k: int| 0 <= k < targets@.len() implies (#[trigger] targets@[k]) > 0 by {
                self.lemma_target(j as int, k);
            }
            assert(targets@.len() * n <= total * n) by (nonlinear_arith)
                requires
                    targets@.len() <= total,
                    n >= 0,
            ;
        }
        let switched = Poly::approx_switch_crt_basis(
            &digit,
            ops,
            n,
            &self.q_hat_inv_modq_parts[j],
            &self.q_hat_modp_parts[j],
            targets,
        );
        let ghost target = self.digit_rows(x, j as int);
        let mut rows: Vec<Vec<u64>> = Vec::with_capacity(total);
        let mut r: usize = 0;
        while r < total
            invariant
                r <= total,
                start < end <= l,
                l <= total,
                len == end - start,
                switched@.len() == total - len,
                rectangular(switched@, n as int),
                poly.wf(),
                x == poly.rows(),
                l == poly.ctx().moduli().len(),
                n == poly.ctx().n(),
                target == embedded_rows(x, switched@, start as int, end as int),
                rows@.len() == r,
                forall|k: int| 0 <= k < r ==> (#[trigger] rows@[k])@ == target[k],
                forall|k: int| 0 <= k < r ==> (#[trigger] rows@[k])@.len() == n,
            decreases total - r,
        {
            let row = if r < start {
                switched.row(r)
            } else if r < end {
                poly.row(r)
            } else {
                switched.row(r - len)
            };
            rows.push(row);
            r += 1;
        }
        let m = matrix_from_rows(&rows, n);
        proof {
            assert(m@ =~= target);
            assert forall|k: int| 0 <= k < m@.len() implies (#[trigger] m@[k]).len() == n && reduced(
                m@[k],
                self.combined().moduli()[k],
            ) by {
                if k < start {
                    self.lemma_target(j as int, k);
                } else if k < end {
                    assert(m@[k] == x[k]);
                } else {
                    self.lemma_target(j as int, k - len);
                }
            }
        }
        let mut u = Poly::new(m, &self.qp_ctx, Representation::Coefficient);
        u.change_representation(Representation::Evaluation);
        u
    }

    /// Target `k` of digit `j` is the modulus of the combined chain at the
    /// place where the switched row `k` goes.
    pub proof fn lemma_target(&self, j: int, k: int)
        requires
            self.wf(),
            0 <= j < self.parts(),
            0 <= k < self.group_targets(j).len(),
        ensures
            ({
                let start = group_start(j, self.digits() as int);
                let end = group_end(j, self.digits() as int, self.chain().len() as int);
                let place = if k < start {
                    k
                } else {
                    k + (end - start)
                };
                &&& 0 <= start < end <= self.chain().len()
                &&& place < self.combined().moduli().len()
                &&& self.group_targets(j)[k] as int == self.combined().moduli()[place]
                &&& self.group_targets(j)[k] >= 2
            }),
    {
        let start = group_start(j, self.digits() as int);
        let end = group_end(j, self.digits() as int, self.chain().len() as int);
        self.source().lemma_wf();
        self.aux().lemma_wf();
        self.combined().lemma_wf();
        assert(self.group_wf(j));
        assert(j * self.digits() <= (self.parts() - 1) * self.digits()) by (nonlinear_arith)
            requires
                j <= self.parts() - 1,
                self.digits() >= 0,
        ;
        assert(j * self.digits() >= 0) by (nonlinear_arith)
            requires
                j >= 0,
                self.digits() >= 0,
        ;
        let q = self.chain();
        let p = self.aux_chain();
        let t = digit_targets(q, p, start, end);
        let place = if k < start {
            k
        } else {
            k + (end - start)
        };
        if k < start {
            assert(t[k] == q[k]);
            assert(self.source().moduli()[k] == q[k]);
        } else if k < q.len() - (end - start) {
            assert(t[k] == q.skip(end)[k - start]);
            assert(self.source().moduli()[place] == q[place]);
        } else {
            assert(t[k] == p[k - (q.len() - (end - start))]);
            assert(self.aux().moduli()[place - q.len()] == p[place - q.len()]);
            assert(self.combined().moduli()[place] == self.aux().moduli()[place - q.len()]);
        }
    }

    /// Brings a sum over the combined chain down to the source chain.
    fn bring_down(&self, c: Poly) -> (r: Poly)
        requires
            self.wf(),
            c.wf(),
            c.ctx() == self.combined(),
            c.repr() == Representation::Evaluation,
        ensures
            r.wf(),
            r.ctx() == self.source(),
            r.repr() == Representation::Evaluation,
            r.rows() == self.brought_down(c.rows()),
    {
        let mut c = c;
        c.change_representation(Representation::Coefficient);
        proof {
            self.source().lemma_wf();
            self.aux().lemma_wf();
            self.combined().lemma_wf();
            let l = self.source().moduli().len();
            let total = self.combined().moduli().len();
            assert(self.combined().moduli().subrange(total - self.aux().moduli().len(), total as int)
                =~= self.aux().moduli());
            assert(self.combined().moduli().subrange(0, l as int) =~= self.source().moduli());
        }
        let m = Poly::approx_mod_down(
            c.coefficients(),
            &self.qp_ctx,
            &self.p_ctx,
            &self.p_hat_inv_modp,
            &self.p_hat_modq,
            &self.p_inv_modq,
        );
        let mut r = Poly::new(m, &self.ksk_ctx, Representation::Coefficient);
        r.change_representation(Representation::Evaluation);
        r
    }

    /// Switches the polynomial: every digit is embedded in the combined
    /// chain and multiplied into the pair that belongs to it; the two sums
    /// are brought down to the source chain. Gives the two results, first
    /// components first.
    pub fn switch(&self, poly: &Poly) -> (r: Vec<Poly>)
        requires
            poly.repr() == Representation::Coefficient,
            same_chain(poly.ctx(), self.source()),
        ensures
            r@.len() == 2,
            all_in(r@, self.source()),
            r@[0].rows() == self.brought_down(
                accumulated_rows(
                    rows_of(self.c0_polys()),
                    self.terms(poly.rows()),
                    self.combined().moduli(),
                    self.parts(),
                ),
            ),
            r@[1].rows() == self.brought_down(
                accumulated_rows(
                    rows_of(self.c1_polys()),
                    self.terms(poly.rows()),
                    self.combined().moduli(),
                    self.parts(),
                ),
            ),
    {
        proof {
            use_type_invariant(self);
        }
        proof {
            use_type_invariant(poly);
        }
        let mut parts: Vec<Poly> = Vec::with_capacity(self.alpha);
        let mut j: usize = 0;
        while j < self.alpha
            invariant
                j <= self.alpha,
                self.wf(),
                poly.wf(),
                poly.repr() == Representation::Coefficient,
                same_chain(poly.ctx(), self.source()),
                parts@.len() == j,
                all_in(parts@, self.combined()),
                forall|k: int|
                    0 <= k < j ==> (#[trigger] parts@[k]).rows() == self.terms(poly.rows())[k],
            decreases self.alpha - j,
        {
            let u = self.embed_digit(poly, j);
            parts.push(u);
            j += 1;
        }
        proof {
            assert(rows_of(parts@) =~= self.terms(poly.rows()));
            assert(self.c0s@[0].ctx() == self.combined());
            assert(self.c1s@[0].ctx() == self.combined());
        }
        let c0_out = accumulate(&self.c0s, &parts);
        let c1_out = accumulate(&self.c1s, &parts);
        let c0_res = self.bring_down(c0_out);
        let c1_res = self.bring_down(c1_out);
        let mut r: Vec<Poly> = Vec::with_capacity(2);
        r.push(c0_res);
        r.push(c1_res);
        r
    }

    /// Element `j` of the first components is built on the generator of
    /// digit `j` with some small errors.
    pub open spec fn element_wf(&self, j: int, a: Seq<Seq<u64>>, sk: Seq<i64>) -> bool {
        exists|g: nat| #[trigger]
            is_hybrid_generator(
                g,
                seq_product(self.aux().moduli()),
                seq_product(self.source().moduli()),
                seq_product(
                    self.source().moduli().subrange(
                        group_start(j, self.digits() as int),
                        group_end(j, self.digits() as int, self.chain().len() as int),
                    ),
                ),
            ) && is_hybrid_element(
                self.c0_polys()[j],
                g,
                a,
                self.c1_polys()[j].rows(),
                sk,
                self.combined(),
                self.chain().len() as int,
            )
    }

    /// A key with digits of three rows and auxiliary moduli of sixty bits.
    pub fn new(poly: &Poly, sk: &SecretKey, ciphertext_ctx: &Arc<PolyContext>, rng: &mut ChaCha8Rng) -> (r:
        Result<HybridKeySwitchingKey, Error>)
        requires
            poly.repr() == Representation::Evaluation,
            poly.ctx() == **ciphertext_ctx,
            sk.values().len() == poly.ctx().n(),
        ensures
            Self::built(r, *poly, *sk, **ciphertext_ctx, DIGIT_WIDTH, AUX_BITS),
    {
        Self::with_parameters(poly, sk, ciphertext_ctx, DIGIT_WIDTH, AUX_BITS, rng)
    }

    /// What building a key gives: a key for the context with digits of
    /// `dnum` rows, an auxiliary chain of the largest primes of `aux_bits`
    /// bits outside the source chain, second components from the key's seed
    /// and first components built on the generators of the digits with small
    /// errors; or the reason why there is no such key.
    pub open spec fn built(
        r: Result<HybridKeySwitchingKey, Error>,
        poly: Poly,
        sk: SecretKey,
        ctx: PolyContext,
        dnum: usize,
        aux_bits: usize,
    ) -> bool {
        let sizes = aux_sizes(aux_count(ctx.moduli(), dnum as int, aux_bits as int), aux_bits);
        let alpha = digit_count(ctx.moduli().len() as int, dnum as int);
        match r {
            Ok(key) => {
                &&& key.wf()
                &&& key.source() == ctx
                &&& key.digits() == dnum
                &&& key.parts() == alpha
                &&& is_generated_chain(key.aux_chain(), sizes, 2 * (ctx.n() as int), ctx.words())
                &&& forall|k: int|
                    0 <= k < key.parts() ==> (#[trigger] key.c1_polys()[k]).rows() == seeded_rows(
                        key.seed_bytes(),
                        key.parts(),
                        key.combined(),
                        k,
                    )
                &&& forall|j: int|
                    0 <= j < key.parts() ==> #[trigger] key.element_wf(j, poly.rows(), sk.values())
            },
            Err(Error::ModulusGenerationExhausted) => chain_exhausted(
                sizes,
                2 * (ctx.n() as int),
                ctx.words(),
            ),
            Err(Error::UnsupportedModulus) => {
                ||| aux_count(ctx.moduli(), dnum as int, aux_bits as int) > isize::MAX
                ||| exists|p: Seq<u64>| #[trigger]
                    is_generated_chain(p, sizes, 2 * (ctx.n() as int), ctx.words()) && !hybrid_supported(
                        ctx.words(),
                        p,
                        ctx.n() as int,
                        alpha,
                    )
            },
            Err(Error::NonInvertible) => exists|p: Seq<u64>| #[trigger]
                is_generated_chain(p, sizes, 2 * (ctx.n() as int), ctx.words()) && !hybrid_invertible(
                    ctx.moduli(),
                    as_ints(p),
                    dnum as int,
                ),
            Err(Error::UnsupportedDegree) => false,
        }
    }

    /// Puts the parts of a key together.
    fn assemble(
        ksk_ctx: Arc<PolyContext>,
        p_ctx: Arc<PolyContext>,
        qp_ctx: Arc<PolyContext>,
        q: Vec<u64>,
        p: Vec<u64>,
        seed: [u8; 32],
        tables: DigitTables,
        p_hat_inv_modp: Vec<u64>,
        p_hat_modq: Matrix,
        p_inv_modq: Vec<u64>,
        dnum: usize,
        alpha: usize,
        c0s: Vec<Poly>,
        c1s: Vec<Poly>,
    ) -> (key: HybridKeySwitchingKey)
        requires
            ksk_ctx.wf(),
            p_ctx.wf(),
            qp_ctx.wf(),
            p_ctx.n() == ksk_ctx.n(),
            qp_ctx.n() == ksk_ctx.n(),
            as_ints(q@) == ksk_ctx.moduli(),
            as_ints(p@) == p_ctx.moduli(),
            qp_ctx.moduli() == ksk_ctx.moduli() + p_ctx.moduli(),
            dnum >= 1,
            alpha >= 1,
            (alpha - 1) * dnum < q@.len(),
            q@.len() <= alpha * dnum,
            c0s@.len() == alpha,
            c1s@.len() == alpha,
            all_in(c0s@, *qp_ctx),
            all_in(c1s@, *qp_ctx),
            tables_wf(
                tables,
                ksk_ctx.moduli(),
                q@,
                p@,
                dnum as int,
                alpha as int,
                seq_product(ksk_ctx.moduli()),
                seq_product(p_ctx.moduli()),
            ),
            is_switch_constants(p_ctx.moduli(), q@, p_hat_inv_modp@, p_hat_modq@),
            p_inv_modq@.len() == q@.len(),
            forall|i: int|
                0 <= i < q@.len() ==> (#[trigger] p_inv_modq@[i]) < q@[i] && inverse_of(
                    seq_product(p_ctx.moduli()),
                    p_inv_modq@[i] as int,
                    q@[i] as int,
                ),
        ensures
            key.wf(),
            key.source() == *ksk_ctx,
            key.aux() == *p_ctx,
            key.combined() == *qp_ctx,
            key.chain() == q@,
            key.aux_chain() == p@,
            key.digits() == dnum,
            key.parts() == alpha,
            key.c0_polys() == c0s@,
            key.c1_polys() == c1s@,
            key.seed_bytes() == seed@,
    {
        let ghost source = ksk_ctx.moduli();
        let ghost ops = tables.ops@;
        let ghost targets = tables.targets@;
        let ghost hat_inv = tables.hat_inv@;
        let ghost hat_modp = tables.hat_modp@;
        let ghost chain = q@;
        let ghost aux = p@;
        let key = HybridKeySwitchingKey {
            ksk_ctx,
            p_ctx,
            qp_ctx,
            q_moduli: q,
            p_moduli: p,
            seed,
            q_hat_inv_modq_parts: tables.hat_inv,
            q_mod_ops_parts: tables.ops,
            q_hat_modp_parts: tables.hat_modp,
            p_moduli_parts: tables.targets,
            p_hat_inv_modp,
            p_hat_modq,
            p_inv_modq,
            dnum,
            alpha,
            c0s,
            c1s,
        };
        key
    }

    /// A key that switches polynomials of `ciphertext_ctx` to pairs under
    /// the secret `sk`, for the polynomial `poly`, with digits of `dnum` rows
    /// and auxiliary moduli of `aux_bits` bits.
    pub fn with_parameters(
        poly: &Poly,
        sk: &SecretKey,
        ciphertext_ctx: &Arc<PolyContext>,
        dnum: usize,
        aux_bits: usize,
        rng: &mut ChaCha8Rng,
    ) -> (r: Result<HybridKeySwitchingKey, Error>)
        requires
            poly.repr() == Representation::Evaluation,
            poly.ctx() == **ciphertext_ctx,
            sk.values().len() == poly.ctx().n(),
            dnum >= 1,
            aux_bits >= 1,
        ensures
            Self::built(r, *poly, *sk, **ciphertext_ctx, dnum, aux_bits),
    {
        let n: usize = ciphertext_ctx.degree();
        let l: usize = ciphertext_ctx.moduli_count();
        let q = ciphertext_ctx.moduli_vec();
        proof {
            use_type_invariant(poly);
        }
        proof {
            ciphertext_ctx.lemma_wf();
        }
        let alpha: usize = count_digits(l, dnum);
        let bits: u64 = largest_digit_bits(ciphertext_ctx, dnum, alpha);
        let wide: u128 = ((bits as u128) + (aux_bits as u128) - 1) / (aux_bits as u128);
        if wide > isize::MAX as u128 {
            return Err(Error::UnsupportedModulus);
        }
        let size_p: usize = wide as usize;
        let ghost sizes = aux_sizes(size_p as int, aux_bits);
        let size_list = repeated(aux_bits, size_p);
        let p = match generate_chain(size_list.as_slice(), 2 * (n as u64), &q) {
            Some(p) => p,
            None => {
                return Err(Error::ModulusGenerationExhausted);
            },
        };
        proof {
            assert(size_p == aux_count(
                ciphertext_ctx.moduli(),
                dnum as int,
                aux_bits as int,
            ));
            assert(is_generated_chain(
                p@,
                aux_sizes(
                    aux_count(ciphertext_ctx.moduli(), dnum as int, aux_bits as int),
                    aux_bits,
                ),
                2 * (ciphertext_ctx.n() as int),
                ciphertext_ctx.words(),
            ));
        }
        let lp: usize = p.len();
        let total: usize = l + lp;
        // the sizes that the constants and the seeded words take
        let fits: bool = match total.checked_mul(total) {
            Some(square) => square <= isize::MAX as usize,
            None => false,
        };
        if !fits {
            return Err(Error::UnsupportedModulus);
        }
        let p_ctx = match PolyContext::new(p.as_slice(), n) {
            Some(c) => Arc::new(c),
            None => {
                return Err(Error::UnsupportedModulus);
            },
        };
        let mut qp: Vec<u64> = q.clone();
        let mut rest: Vec<u64> = p.clone();
        qp.append(&mut rest);
        proof {
            assert(qp@ =~= q@ + p@);
        }
        let qp_ctx = match PolyContext::new(qp.as_slice(), n) {
            Some(c) => Arc::new(c),
            None => {
                return Err(Error::UnsupportedModulus);
            },
        };
        proof {
            qp_ctx.lemma_wf();
            p_ctx.lemma_wf();
            assert(qp_ctx.moduli() =~= ciphertext_ctx.moduli() + p_ctx.moduli());
        }
        let words: usize = 2 * (total * n);
        let fits: bool = match alpha.checked_mul(words) {
            Some(size) => true,
            None => false,
        };
        if !fits {
            return Err(Error::UnsupportedModulus);
        }
        let q_big = ciphertext_ctx.modulus();
        let p_big = p_ctx.modulus();
        let ghost source = ciphertext_ctx.moduli();
        let tables = match digit_tables(ciphertext_ctx, &q, &p, &q_big, &p_big, dnum, alpha) {
            Some(t) => t,
            None => {
                proof {
                    assert(!hybrid_invertible(source, as_ints(p@), dnum as int));
                }
                return Err(Error::NonInvertible);
            },
        };
        // the constants that bring a result down
        let p_ops = group_moduli(&p_ctx, 0, lp);
        proof {
            assert(p_ctx.moduli().subrange(0, lp as int) =~= p_ctx.moduli());
            assert(lp * l <= total * total) by (nonlinear_arith)
                requires
                    lp <= total,
                    l <= total,
                    lp >= 0,
                    l >= 0,
            ;
            assert(total <= total * total) by (nonlinear_arith)
                requires
                    total >= 1,
            ;
            assert forall|k: int| 0 <= k < q@.len() implies (#[trigger] q@[k]) > 0 by {
                assert(source[k] >= 2);
            }
        }
        let (p_hat_inv_modp, p_hat_modq) = match switch_constants(&p_ops, &q) {
            Some(c) => c,
            None => {
                proof {
                    let m = values_of(p_ops@);
                    let i = choose|i: int|
                        0 <= i < m.len() && no_inverse(seq_product(m) / (#[trigger] m[i]), m[i]);
                    assert(no_inverse(seq_product(m) / m[i], m[i]));
                    assert(!constants_invertible(as_ints(p@)));
                    assert(!hybrid_invertible(source, as_ints(p@), dnum as int));
                }
                return Err(Error::NonInvertible);
            },
        };
        let p_inv_modq = match inverses_under(&p_big, ciphertext_ctx) {
            Some(inv) => inv,
            None => {
                proof {
                    let i = choose|i: int|
                        0 <= i < source.len() && no_inverse(p_big@ as int, #[trigger] source[i]);
                    assert(no_inverse(seq_product(as_ints(p@)), source[i]));
                    assert(!hybrid_invertible(source, as_ints(p@), dnum as int));
                }
                return Err(Error::NonInvertible);
            },
        };
        let seed = draw_seed(rng);
        let c1s = Self::generate_c1(alpha, &qp_ctx, seed);
        proof {
            assert(qp_ctx.moduli().take(l as int) =~= source);
            assert(alpha * n <= alpha * (2 * (total * n))) by (nonlinear_arith)
                requires
                    total >= 1,
                    alpha >= 0,
                    n >= 0,
            ;
        }
        let c0s = Self::generate_c0(&c1s, &tables.g, poly, sk, rng);
        let ghost t = tables;
        let ghost g = tables.g@;
        let key = Self::assemble(
            share(ciphertext_ctx),
            p_ctx,
            qp_ctx,
            q,
            p,
            seed,
            tables,
            p_hat_inv_modp,
            p_hat_modq,
            p_inv_modq,
            dnum,
            alpha,
            c0s,
            c1s,
        );
        proof {
            assert forall|j: int| 0 <= j < key.parts() implies #[trigger] key.element_wf(
                j,
                poly.rows(),
                sk.values(),
            ) by {
                assert(values_of(t.ops@[j]@) == source.subrange(
                    group_start(j, dnum as int),
                    group_end(j, dnum as int, l as int),
                ));
                assert(is_hybrid_element(
                    key.c0_polys()[j],
                    key_generator(g, j),
                    poly.rows(),
                    key.c1_polys()[j].rows(),
                    sk.values(),
                    key.combined(),
                    l as int,
                ));
            }
        }
        Ok(key)
    }

    /// The second components of a key: `count` polynomials that the seed gives.
    pub fn generate_c1(count: usize, qp_ctx: &Arc<PolyContext>, seed: [u8; 32]) -> (r: Vec<Poly>)
        requires
            count * words_per_poly(**qp_ctx) <= usize::MAX,
        ensures
            r@.len() == count,
            all_in(r@, **qp_ctx),
            forall|k: int|
                0 <= k < count ==> (#[trigger] r@[k]).rows() == seeded_rows(
                    seed@,
                    count as nat,
                    **qp_ctx,
                    k,
                ),
    {
        seeded_polys(count, qp_ctx, &seed)
    }

    /// The first components of a key, with the errors that `words` give:
    /// under the moduli of the source chain element `j` is `e_j + g_j * poly
    /// - c1_j * sk`, under the auxiliary moduli it is `e_j - c1_j * sk`.
    pub fn generate_c0_from_words(c1s: &Vec<Poly>, g: &Vec<BigNat>, poly: &Poly, sk: &SecretKey, words: &Vec<u64>) -> (r:
        Vec<Poly>)
        requires
            c1s@.len() >= 1,
            g@.len() == c1s@.len(),
            all_in(c1s@, c1s@[0].ctx()),
            poly.repr() == Representation::Evaluation,
            poly.ctx().moduli().len() < c1s@[0].ctx().moduli().len(),
            poly.ctx().moduli() == c1s@[0].ctx().moduli().take(poly.ctx().moduli().len() as int),
            poly.ctx().n() == c1s@[0].ctx().n(),
            sk.values().len() == poly.ctx().n(),
            words@.len() == c1s@.len() * poly.ctx().n(),
        ensures
            r@.len() == c1s@.len(),
            all_in(r@, c1s@[0].ctx()),
            forall|j: int|
                0 <= j < r@.len() ==> is_hybrid_c0(
                    #[trigger] r@[j],
                    g@[j]@,
                    poly.rows(),
                    c1s@[j].rows(),
                    sk.values(),
                    error_block(words@, poly.ctx().n(), j),
                    c1s@[0].ctx(),
                    poly.ctx().moduli().len() as int,
                ),
    {
        let qp_ctx = c1s[0].context();
        let ghost qp = c1s@[0].ctx();
        let n: usize = qp_ctx.degree();
        let total: usize = qp_ctx.moduli_count();
        let q_count: usize = poly.context().moduli_count();
        let count: usize = c1s.len();
        let len: usize = words.len();
        proof {
            qp_ctx.lemma_wf();
        }
        let mut s = Poly::try_convert_from_i64(sk.coefficients(), qp_ctx, &Representation::Coefficient);
        s.change_representation(Representation::Evaluation);
        let mut c0s: Vec<Poly> = Vec::with_capacity(count);
        let mut j: usize = 0;
        while j < count
            invariant
                j <= count,
                count == c1s@.len(),
                g@.len() == count,
                qp == c1s@[0].ctx(),
                **qp_ctx == qp,
                qp.wf(),
                n == qp.n(),
                total == qp.moduli().len(),
                q_count == poly.ctx().moduli().len(),
                q_count < total,
                poly.wf(),
                poly.ctx().moduli() == qp.moduli().take(q_count as int),
                poly.ctx().n() == n,
                all_in(c1s@, qp),
                s.wf(),
                s.ctx() == qp,
                s.rows() == secret_rows(sk.values(), qp),
                len == words@.len(),
                words@.len() == count * n,
                c0s@.len() == j,
                all_in(c0s@, qp),
                forall|k: int|
                    0 <= k < j ==> is_hybrid_c0(
                        #[trigger] c0s@[k],
                        g@[k]@,
                        poly.rows(),
                        c1s@[k].rows(),
                        sk.values(),
                        error_block(words@, n as nat, k),
                        qp,
                        q_count as int,
                    ),
            decreases count - j,
        {
            proof {
                assert(j * n + n <= count * n) by (nonlinear_arith)
                    requires
                        j + 1 <= count,
                        n >= 0,
                ;
            }
            let block = block_of(words, j * n, n);
            let e = Poly::from_error_words(&block, ERROR_BOUND, qp_ctx, &Representation::Evaluation);
            let c1 = &c1s[j];
            let ghost target = hybrid_c0_rows(
                g@[j as int]@,
                poly.rows(),
                c1.rows(),
                s.rows(),
                e.rows(),
                qp.moduli(),
                q_count as int,
            );
            let mut rows: Vec<Vec<u64>> = Vec::with_capacity(total);
            let mut i: usize = 0;
            while i < total
                invariant
                    i <= total,
                    j < count,
                    g@.len() == count,
                    **qp_ctx == qp,
                    qp.wf(),
                    n == qp.n(),
                    total == qp.moduli().len(),
                    q_count == poly.ctx().moduli().len(),
                    q_count < total,
                    poly.wf(),
                    poly.ctx().moduli() == qp.moduli().take(q_count as int),
                    poly.ctx().n() == n,
                    c1.wf(),
                    c1.ctx() == qp,
                    s.wf(),
                    s.ctx() == qp,
                    e.wf(),
                    e.ctx() == qp,
                    target == hybrid_c0_rows(
                        g@[j as int]@,
                        poly.rows(),
                        c1.rows(),
                        s.rows(),
                        e.rows(),
                        qp.moduli(),
                        q_count as int,
                    ),
                    rows@.len() == i,
                    forall|k: int| 0 <= k < i ==> (#[trigger] rows@[k])@ == target[k],
                    forall|k: int|
                        0 <= k < i ==> (#[trigger] rows@[k])@.len() == n && reduced(
                            rows@[k]@,
                            qp.moduli()[k],
                        ),
                decreases total - i,
            {
                let m = qp_ctx.modulus_op(i);
                let mut row = e.row(i);
                if i < q_count {
                    let mut ga = poly.row(i);
                    assert(poly.ctx().moduli()[i as int] == qp.moduli()[i as int]);
                    let scalar: u64 = g[j].rem_u64(m.modulus());
                    m.scalar_mul_vec(&mut ga, scalar);
                    m.add_vec(&mut row, &ga);
                }
                let mut product = c1.row(i);
                let secret = s.row(i);
                m.mul_vec(&mut product, &secret);
                m.sub_vec(&mut row, &product);
                proof {
                    assert(row@ =~= target[i as int]);
                }
                rows.push(row);
                i += 1;
            }
            proof {
                qp.lemma_wf();
            }
            let matrix = matrix_from_rows(&rows, n);
            proof {
                assert(matrix@ =~= target);
            }
            let c0 = Poly::new(matrix, qp_ctx, Representation::Evaluation);
            c0s.push(c0);
            j += 1;
        }
        c0s
    }

    /// The first components of a key, with errors drawn from `rng`.
    pub fn generate_c0(c1s: &Vec<Poly>, g: &Vec<BigNat>, poly: &Poly, sk: &SecretKey, rng: &mut ChaCha8Rng) -> (r:
        Vec<Poly>)
        requires
            c1s@.len() >= 1,
            g@.len() == c1s@.len(),
            all_in(c1s@, c1s@[0].ctx()),
            poly.repr() == Representation::Evaluation,
            poly.ctx().moduli().len() < c1s@[0].ctx().moduli().len(),
            poly.ctx().moduli() == c1s@[0].ctx().moduli().take(poly.ctx().moduli().len() as int),
            poly.ctx().n() == c1s@[0].ctx().n(),
            sk.values().len() == poly.ctx().n(),
            c1s@.len() * poly.ctx().n() <= usize::MAX,
        ensures
            r@.len() == c1s@.len(),
            all_in(r@, c1s@[0].ctx()),
            forall|j: int|
                0 <= j < r@.len() ==> is_hybrid_element(
                    #[trigger] r@[j],
                    g@[j]@,
                    poly.rows(),
                    c1s@[j].rows(),
                    sk.values(),
                    c1s@[0].ctx(),
                    poly.ctx().moduli().len() as int,
                ),
    {
        let n: usize = poly.context().degree();
        let words = draw_words(rng, c1s.len() * n);
        let r = Self::generate_c0_from_words(c1s, g, poly, sk, &words);
        proof {
            assert forall|j: int| 0 <= j < r@.len() implies is_hybrid_element(
                #[trigger] r@[j],
                g@[j]@,
                poly.rows(),
                c1s@[j].rows(),
                sk.values(),
                c1s@[0].ctx(),
                poly.ctx().moduli().len() as int,
            ) by {
                assert(j * n + n <= c1s@.len() * n) by (nonlinear_arith)
                    requires
                        j + 1 <= c1s@.len(),
                        n >= 0,
                ;
                lemma_block_small(words@, n as nat, j);
                assert(is_hybrid_c0(
                    r@[j],
                    g@[j]@,
                    poly.rows(),
                    c1s@[j].rows(),
                    sk.values(),
                    error_block(words@, n as nat, j),
                    c1s@[0].ctx(),
                    poly.ctx().moduli().len() as int,
                ));
            }
        }
        r
    }

    /// The seed from which the second components can be made again.
    pub fn seed(&self) -> (seed: [u8; 32])
        ensures
            seed@ == self.seed_bytes(),
    {
        self.seed
    }

    /// The first components.
    pub fn c0s(&self) -> (c: &Vec<Poly>)
        ensures
            c@ == self.c0_polys(),
            self.wf(),
    {
        proof {
            use_type_invariant(self);
        }
        &self.c0s
    }

    /// The second components.
    pub fn c1s(&self) -> (c: &Vec<Poly>)
        ensures
            c@ == self.c1_polys(),
            self.wf(),
    {
        proof {
            use_type_invariant(self);
        }
        &self.c1s
    }

    /// The context of the polynomials to switch, which is that of the result.
    pub fn ksk_ctx(&self) -> (c: &Arc<PolyContext>)
        ensures
            **c == self.source(),
            self.wf(),
    {
        proof {
            use_type_invariant(self);
        }
        &self.ksk_ctx
    }

    /// The context of the auxiliary chain.
    pub fn p_ctx(&self) -> (c: &Arc<PolyContext>)
        ensures
            **c == self.aux(),
            self.wf(),
    {
        proof {
            use_type_invariant(self);
        }
        &self.p_ctx
    }

    /// The number of rows in a digit.
    pub fn dnum(&self) -> (d: usize)
        ensures
            d == self.digits(),
    {
        self.dnum
    }

    /// The number of digits.
    pub fn alpha(&self) -> (a: usize)
        ensures
            a == self.parts(),
    {
        self.alpha
    }

    /// The context of the two chains together.
    pub fn qp_ctx(&self) -> (c: &Arc<PolyContext>)
        ensures
            **c == self.combined(),
            self.wf(),
    {
        proof {
            use_type_invariant(self);
        }
        &self.qp_ctx
    }
}

/// `g` is the generator of a digit whose moduli multiply to `digit`, in a
/// chain with the product `q` and an auxiliary chain with the product `p`:
/// `p` times the product of the other digits times the inverse of that
/// product modulo the digit.
pub open spec fn is_hybrid_generator(g: nat, p: int, q: int, digit: int) -> bool {
    exists|x: int|
        0 <= x < digit && #[trigger] inverse_of(q / digit, x, digit) && g == p * (q / digit) * x
}

/// Every modulus of `moduli` has an inverse of the product of the others.
pub open spec fn constants_invertible(moduli: Seq<int>) -> bool {
    forall|i: int|
        0 <= i < moduli.len() ==> !no_inverse(
            seq_product(moduli) / (#[trigger] moduli[i]),
            moduli[i],
        )
}

/// The largest number of bits among the products of the first `upto` digits
/// of the chain `q`.
pub open spec fn max_digit_bits(q: Seq<int>, dnum: int, upto: nat) -> nat
    decreases upto,
{
    if upto == 0 {
        0
    } else {
        let j = upto - 1;
        let bits = bit_length(
            seq_product(q.subrange(group_start(j, dnum), group_end(j, dnum, q.len() as int))) as nat,
        );
        let rest = max_digit_bits(q, dnum, j as nat);
        if bits > rest {
            bits
        } else {
            rest
        }
    }
}

/// The number of digits of a chain of `l` moduli.
pub open spec fn digit_count(l: int, dnum: int) -> int {
    (l + dnum - 1) / dnum
}

/// The number of auxiliary moduli: the bits of the largest digit product
/// over the bits of an auxiliary modulus, rounded up.
pub open spec fn aux_count(q: Seq<int>, dnum: int, aux_bits: int) -> int {
    (max_digit_bits(q, dnum, digit_count(q.len() as int, dnum) as nat) + aux_bits - 1) / aux_bits
}

/// The moduli of the rows from `start` to `end` of the context.
fn group_moduli(ctx: &Arc<PolyContext>, start: usize, end: usize) -> (ops: Vec<Modulus>)
    requires
        start <= end <= ctx.moduli().len(),
    ensures
        values_of(ops@) == ctx.moduli().subrange(start as int, end as int),
        ops@.len() == end - start,
{
    let mut ops: Vec<Modulus> = Vec::with_capacity(end - start);
    let mut i: usize = start;
    while i < end
        invariant
            start <= i <= end,
            end <= ctx.moduli().len(),
            ops@.len() == i - start,
            forall|k: int| 0 <= k < i - start ==> (#[trigger] ops@[k]).value() == ctx.moduli()[start + k],
        decreases end - i,
    {
        ops.push(ctx.modulus_op(i));
        i += 1;
    }
    proof {
        assert(values_of(ops@) =~= ctx.moduli().subrange(start as int, end as int));
    }
    ops
}

/// The moduli that a digit is switched to.
fn targets_of(q: &Vec<u64>, p: &Vec<u64>, start: usize, end: usize) -> (t: Vec<u64>)
    requires
        start <= end <= q@.len(),
    ensures
        t@ == digit_targets(q@, p@, start as int, end as int),
{
    let mut t: Vec<u64> = Vec::new();
    let mut i: usize = 0;
    while i < start
        invariant
            i <= start,
            start <= q@.len(),
            t@ == q@.take(i as int),
        decreases start - i,
    {
        t.push(q[i]);
        proof {
            assert(q@.take(i + 1) =~= q@.take(i as int).push(q@[i as int]));
        }
        i += 1;
    }
    let mut i: usize = end;
    while i < q.len()
        invariant
            end <= i <= q@.len(),
            t@ == q@.take(start as int) + q@.subrange(end as int, i as int),
        decreases q@.len() - i,
    {
        t.push(q[i]);
        proof {
            assert(q@.subrange(end as int, i + 1) =~= q@.subrange(end as int, i as int).push(
                q@[i as int],
            ));
            assert(t@ =~= q@.take(start as int) + q@.subrange(end as int, i + 1));
        }
        i += 1;
    }
    let mut i: usize = 0;
    proof {
        assert(q@.subrange(end as int, q@.len() as int) =~= q@.skip(end as int));
    }
    while i < p.len()
        invariant
            i <= p@.len(),
            t@ == q@.take(start as int) + q@.skip(end as int) + p@.take(i as int),
        decreases p@.len() - i,
    {
        t.push(p[i]);
        proof {
            assert(p@.take(i + 1) =~= p@.take(i as int).push(p@[i as int]));
            assert(t@ =~= q@.take(start as int) + q@.skip(end as int) + p@.take(i + 1));
        }
        i += 1;
    }
    proof {
        assert(p@.take(p@.len() as int) =~= p@);
    }
    t
}

/// The generator of a digit with the moduli `ops`, or nothing when the
/// product of the other digits has no inverse modulo the digit.
fn hybrid_generator(q_big: &BigNat, p_big: &BigNat, ops: &Vec<Modulus>) -> (r: Option<BigNat>)
    requires
        ops@.len() >= 1,
    ensures
        match r {
            Some(g) => is_hybrid_generator(
                g@,
                p_big@ as int,
                q_big@ as int,
                seq_product(values_of(ops@)),
            ),
            None => no_inverse(
                q_big@ as int / seq_product(values_of(ops@)),
                seq_product(values_of(ops@)),
            ),
        },
{
    let digit = product_of(ops);
    let hat = q_big.div(&digit);
    match hat.mod_inverse(&digit) {
        None => None,
        Some(x) => {
            let inv = x.rem(&digit);
            let g = p_big.mul(&hat).mul(&inv);
            proof {
                vstd::arithmetic::div_mod::lemma_mul_mod_noop_general(
                    hat@ as int,
                    x@ as int,
                    digit@ as int,
                );
                vstd::arithmetic::div_mod::lemma_mod_bound(x@ as int, digit@ as int);
                assert(inverse_of(q_big@ as int / (digit@ as int), inv@ as int, digit@ as int));
            }
            Some(g)
        },
    }
}

/// The inverse of `p_big` under every modulus of the context, or nothing
/// when one does not exist.
fn inverses_under(p_big: &BigNat, ctx: &Arc<PolyContext>) -> (r: Option<Vec<u64>>)
    ensures
        match r {
            Some(inv) => {
                &&& inv@.len() == ctx.moduli().len()
                &&& forall|i: int|
                    0 <= i < inv@.len() ==> (#[trigger] inv@[i]) < ctx.moduli()[i] && inverse_of(
                        p_big@ as int,
                        inv@[i] as int,
                        ctx.moduli()[i],
                    )
            },
            None => exists|i: int|
                0 <= i < ctx.moduli().len() && no_inverse(
                    p_big@ as int,
                    #[trigger] ctx.moduli()[i],
                ),
        },
{
    let count: usize = ctx.moduli_count();
    let mut inv: Vec<u64> = Vec::with_capacity(count);
    let mut i: usize = 0;
    while i < count
        invariant
            i <= count,
            count == ctx.moduli().len(),
            inv@.len() == i,
            forall|k: int|
                0 <= k < i ==> (#[trigger] inv@[k]) < ctx.moduli()[k] && inverse_of(
                    p_big@ as int,
                    inv@[k] as int,
                    ctx.moduli()[k],
                ),
        decreases count - i,
    {
        let m = ctx.modulus_op(i);
        let q: u64 = m.modulus();
        let rest: u64 = p_big.rem_u64(q);
        match m.inv(rest) {
            None => {
                proof {
                    assert forall|y: int| !#[trigger] inverse_of(p_big@ as int, y, q as int) by {
                        vstd::arithmetic::div_mod::lemma_mul_mod_noop_general(
                            p_big@ as int,
                            y,
                            q as int,
                        );
                        assert(!inverse_of(rest as int, y, q as int));
                    }
                    assert(no_inverse(p_big@ as int, ctx.moduli()[i as int]));
                }
                return None;
            },
            Some(x) => {
                proof {
                    vstd::arithmetic::div_mod::lemma_mul_mod_noop_general(
                        p_big@ as int,
                        x as int,
                        q as int,
                    );
                }
                inv.push(x);
            },
        }
        i += 1;
    }
    Some(inv)
}

/// Generator `j` of a list of generators.
pub open spec fn key_generator(g: Seq<BigNat>, j: int) -> nat {
    g[j]@
}

/// What a digit of the hybrid variant needs: its moduli, the moduli it is
/// switched to, the two constants of the switch, and its generator.
pub struct DigitData {
    pub ops: Vec<Modulus>,
    pub targets: Vec<u64>,
    pub hat_inv: Vec<u64>,
    pub hat_modp: Matrix,
    pub g: BigNat,
}

/// The data of the digit with the rows from `start` to `end`, or the reason
/// why it cannot be had: some inverse does not exist.
fn digit_data(
    ctx: &Arc<PolyContext>,
    q: &Vec<u64>,
    p: &Vec<u64>,
    q_big: &BigNat,
    p_big: &BigNat,
    start: usize,
    end: usize,
) -> (r: Option<DigitData>)
    requires
        start < end <= q@.len(),
        q@ == ctx.words(),
        forall|k: int| 0 <= k < p@.len() ==> (#[trigger] p@[k]) > 0,
        (q@.len() + p@.len()) * (q@.len() + p@.len()) <= isize::MAX,
    ensures
        match r {
            Some(d) => {
                &&& values_of(d.ops@) == ctx.moduli().subrange(start as int, end as int)
                &&& d.targets@ == digit_targets(q@, p@, start as int, end as int)
                &&& is_switch_constants(values_of(d.ops@), d.targets@, d.hat_inv@, d.hat_modp@)
                &&& is_hybrid_generator(
                    d.g@,
                    p_big@ as int,
                    q_big@ as int,
                    seq_product(ctx.moduli().subrange(start as int, end as int)),
                )
            },
            None => {
                ||| !constants_invertible(ctx.moduli().subrange(start as int, end as int))
                ||| no_inverse(
                    q_big@ as int / seq_product(ctx.moduli().subrange(start as int, end as int)),
                    seq_product(ctx.moduli().subrange(start as int, end as int)),
                )
            },
        },
{
    let count: usize = ctx.moduli_count();
    let ops = group_moduli(ctx, start, end);
    let targets = targets_of(q, p, start, end);
    proof {
        ctx.lemma_wf();
        let total = q@.len() + p@.len();
        assert(targets@.len() == total - (end - start));
        assert(ops@.len() * targets@.len() <= total * total) by (nonlinear_arith)
            requires
                ops@.len() <= total,
                targets@.len() <= total,
                ops@.len() >= 0,
                targets@.len() >= 0,
        ;
        assert(total <= total * total) by (nonlinear_arith)
            requires
                total >= 1,
        ;
        assert forall|k: int| 0 <= k < targets@.len() implies (#[trigger] targets@[k]) > 0 by {
            if k < start {
                assert(targets@[k] == q@[k]);
                assert(ctx.moduli()[k] >= 2);
            } else if k < q@.len() - (end - start) {
                assert(targets@[k] == q@.skip(end as int)[k - start]);
                assert(ctx.moduli()[k + (end - start)] >= 2);
            } else {
                assert(targets@[k] == p@[k - (q@.len() - (end - start))]);
            }
        }
    }
    let (hat_inv, hat_modp) = match switch_constants(&ops, &targets) {
        Some(c) => c,
        None => {
            proof {
                let m = values_of(ops@);
                let i = choose|i: int| 0 <= i < m.len() && no_inverse(seq_product(m) / (#[trigger] m[i]), m[i]);
                assert(no_inverse(seq_product(m) / m[i], m[i]));
            }
            return None;
        },
    };
    let g = match hybrid_generator(q_big, p_big, &ops) {
        Some(g) => g,
        None => {
            return None;
        },
    };
    Some(DigitData { ops, targets, hat_inv, hat_modp, g })
}

/// The largest number of bits among the products of the digits.
fn largest_digit_bits(ctx: &Arc<PolyContext>, dnum: usize, alpha: usize) -> (r: u64)
    requires
        dnum >= 1,
        alpha >= 1,
        (alpha - 1) * dnum < ctx.moduli().len(),
    ensures
        r == max_digit_bits(ctx.moduli(), dnum as int, alpha as nat),
{
    let l: usize = ctx.moduli_count();
    let mut r: u64 = 0;
    let mut j: usize = 0;
    while j < alpha
        invariant
            j <= alpha,
            dnum >= 1,
            (alpha - 1) * dnum < l,
            l == ctx.moduli().len(),
            r == max_digit_bits(ctx.moduli(), dnum as int, j as nat),
        decreases alpha - j,
    {
        proof {
            assert(j * dnum <= (alpha - 1) * dnum) by (nonlinear_arith)
                requires
                    j <= alpha - 1,
                    dnum >= 0,
            ;
        }
        let start: usize = j * dnum;
        let end: usize = if l - start > dnum {
            start + dnum
        } else {
            l
        };
        let ops = group_moduli(ctx, start, end);
        let bits: u64 = product_of(&ops).bits();
        if bits > r {
            r = bits;
        }
        j += 1;
    }
    r
}

/// The number of digits of a chain of `l` moduli.
fn count_digits(l: usize, dnum: usize) -> (alpha: usize)
    requires
        dnum >= 1,
        l >= 1,
    ensures
        alpha == digit_count(l as int, dnum as int),
        alpha >= 1,
        (alpha - 1) * dnum < l,
        l <= alpha * dnum,
{
    let whole: usize = l / dnum;
    proof {
        vstd::arithmetic::div_mod::lemma_fundamental_div_mod(l as int, dnum as int);
        assert(whole <= dnum * whole) by (nonlinear_arith)
            requires
                dnum >= 1,
                whole >= 0,
        ;
    }
    let alpha: usize = if l % dnum != 0 {
        whole + 1
    } else {
        whole
    };
    proof {
        let d = dnum as int;
        vstd::arithmetic::div_mod::lemma_fundamental_div_mod(l as int, d);
        vstd::arithmetic::div_mod::lemma_mod_bound(l as int, d);
        let r = (l as int) % d;
        if r != 0 {
            assert(l + d - 1 == d * (whole + 1) + (r - 1)) by (nonlinear_arith)
                requires
                    l == d * whole + r,
            ;
            vstd::arithmetic::div_mod::lemma_fundamental_div_mod_converse(
                l + d - 1,
                d,
                whole + 1,
                r - 1,
            );
            assert((alpha - 1) * d == d * whole) by (nonlinear_arith)
                requires
                    alpha == whole + 1,
            ;
            assert(alpha * d == d * whole + d) by (nonlinear_arith)
                requires
                    alpha == whole + 1,
            ;
        } else {
            assert(l + d - 1 == d * whole + (d - 1));
            vstd::arithmetic::div_mod::lemma_fundamental_div_mod_converse(l + d - 1, d, whole as int, d - 1);
            assert(whole >= 1) by (nonlinear_arith)
                requires
                    l == d * whole,
                    l >= 1,
                    d >= 1,
            ;
            assert((alpha - 1) * d == d * whole - d) by (nonlinear_arith)
                requires
                    alpha == whole,
            ;
            assert(alpha * d == d * whole) by (nonlinear_arith)
                requires
                    alpha == whole,
            ;
        }
    }
    alpha
}

/// The vector that holds `value` `count` times.
fn repeated(value: usize, count: usize) -> (v: Vec<usize>)
    ensures
        v@ == aux_sizes(count as int, value),
{
    let mut v: Vec<usize> = Vec::with_capacity(count);
    let mut i: usize = 0;
    while i < count
        invariant
            i <= count,
            v@.len() == i,
            forall|k: int| 0 <= k < i ==> (#[trigger] v@[k]) == value,
        decreases count - i,
    {
        v.push(value);
        i += 1;
    }
    proof {
        assert(v@ =~= aux_sizes(count as int, value));
    }
    v
}

/// The data of all digits of a key.
pub struct DigitTables {
    pub ops: Vec<Vec<Modulus>>,
    pub targets: Vec<Vec<u64>>,
    pub hat_inv: Vec<Vec<u64>>,
    pub hat_modp: Vec<Matrix>,
    pub g: Vec<BigNat>,
}

/// The tables hold the data of every digit of the chain `source`.
pub open spec fn tables_wf(
    t: DigitTables,
    source: Seq<int>,
    q: Seq<u64>,
    p: Seq<u64>,
    dnum: int,
    alpha: int,
    q_big: int,
    p_big: int,
) -> bool {
    &&& t.ops@.len() == alpha
    &&& t.targets@.len() == alpha
    &&& t.hat_inv@.len() == alpha
    &&& t.hat_modp@.len() == alpha
    &&& t.g@.len() == alpha
    &&& forall|k: int|
        0 <= k < alpha ==> {
            let start = group_start(k, dnum);
            let end = group_end(k, dnum, source.len() as int);
            &&& values_of((#[trigger] t.ops@[k])@) == source.subrange(start, end)
            &&& t.targets@[k]@ == digit_targets(q, p, start, end)
            &&& is_switch_constants(
                values_of(t.ops@[k]@),
                t.targets@[k]@,
                t.hat_inv@[k]@,
                t.hat_modp@[k]@,
            )
            &&& is_hybrid_generator(t.g@[k]@, p_big, q_big, seq_product(source.subrange(start, end)))
        }
}

/// The data of all digits, or nothing when an inverse that some digit needs
/// does not exist.
fn digit_tables(
    ctx: &Arc<PolyContext>,
    q: &Vec<u64>,
    p: &Vec<u64>,
    q_big: &BigNat,
    p_big: &BigNat,
    dnum: usize,
    alpha: usize,
) -> (r: Option<DigitTables>)
    requires
        dnum >= 1,
        alpha == digit_count(ctx.moduli().len() as int, dnum as int),
        alpha >= 1,
        (alpha - 1) * dnum < ctx.moduli().len(),
        q@ == ctx.words(),
        q_big@ == seq_product(ctx.moduli()),
        forall|k: int| 0 <= k < p@.len() ==> (#[trigger] p@[k]) > 0,
        (q@.len() + p@.len()) * (q@.len() + p@.len()) <= isize::MAX,
    ensures
        match r {
            Some(t) => tables_wf(
                t,
                ctx.moduli(),
                q@,
                p@,
                dnum as int,
                alpha as int,
                q_big@ as int,
                p_big@ as int,
            ),
            None => exists|j: int|
                0 <= j < alpha && !#[trigger] digit_invertible(ctx.moduli(), j, dnum as int),
        },
{
    let l: usize = ctx.moduli_count();
    let ghost source = ctx.moduli();
    let mut hat_inv: Vec<Vec<u64>> = Vec::with_capacity(alpha);
    let mut ops: Vec<Vec<Modulus>> = Vec::with_capacity(alpha);
    let mut hat_modp: Vec<Matrix> = Vec::with_capacity(alpha);
    let mut targets: Vec<Vec<u64>> = Vec::with_capacity(alpha);
    let mut g: Vec<BigNat> = Vec::with_capacity(alpha);
    let mut j: usize = 0;
    while j < alpha
        invariant
            j <= alpha,
            dnum >= 1,
            (alpha - 1) * dnum < l,
            l == q@.len(),
            q@ == ctx.words(),
            source == ctx.moduli(),
            l == source.len(),
            q_big@ == seq_product(source),
            forall|k: int| 0 <= k < p@.len() ==> (#[trigger] p@[k]) > 0,
            (q@.len() + p@.len()) * (q@.len() + p@.len()) <= isize::MAX,
            hat_inv@.len() == j,
            ops@.len() == j,
            hat_modp@.len() == j,
            targets@.len() == j,
            g@.len() == j,
            forall|k: int|
                0 <= k < j ==> {
                    let start = group_start(k, dnum as int);
                    let end = group_end(k, dnum as int, l as int);
                    &&& values_of((#[trigger] ops@[k])@) == source.subrange(start, end)
                    &&& targets@[k]@ == digit_targets(q@, p@, start, end)
                    &&& is_switch_constants(
                        values_of(ops@[k]@),
                        targets@[k]@,
                        hat_inv@[k]@,
                        hat_modp@[k]@,
                    )
                    &&& is_hybrid_generator(
                        g@[k]@,
                        p_big@ as int,
                        q_big@ as int,
                        seq_product(source.subrange(start, end)),
                    )
                },
        decreases alpha - j,
    {
        proof {
            assert(j * dnum <= (alpha - 1) * dnum) by (nonlinear_arith)
                requires
                    j <= alpha - 1,
                    dnum >= 0,
            ;
        }
        let start: usize = j * dnum;
        let end: usize = if l - start > dnum {
            start + dnum
        } else {
            l
        };
        match digit_data(ctx, q, p, q_big, p_big, start, end) {
            None => {
                proof {
                    assert(!digit_invertible(source, j as int, dnum as int));
                }
                return None;
            },
            Some(d) => {
                hat_inv.push(d.hat_inv);
                ops.push(d.ops);
                hat_modp.push(d.hat_modp);
                targets.push(d.targets);
                g.push(d.g);
            },
        }
        j += 1;
    }
    Some(DigitTables { ops, targets, hat_inv, hat_modp, g })
}

} // verus!
