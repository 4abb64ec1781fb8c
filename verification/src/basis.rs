//! The two kernels that move residues between chains of moduli.

use crate::matrix::{rectangular, Matrix};
use crate::modulus::{reduced, scale_seq, sub_seq, Modulus, MODULUS_LIMIT};
use crate::poly::{matrix_from_rows, residues_in, Poly, PolyContext};
use std::sync::Arc;
use vstd::arithmetic::div_mod::*;
use vstd::prelude::*;

verus! {

/// The values of a sequence of moduli.
pub open spec fn values_of(ops: Seq<Modulus>) -> Seq<int> {
    Seq::new(ops.len(), |i: int| ops[i].value())
}

/// The contribution of the first `upto` source moduli to coefficient `j` under
/// the target modulus `k`: the sum of `(x[i][j] * q_hat_inv[i] mod q[i]) *
/// q_hat_modp[i][k]`.
pub open spec fn switch_sum(
    x: Seq<Seq<u64>>,
    q: Seq<int>,
    q_hat_inv: Seq<u64>,
    q_hat_modp: Seq<Seq<u64>>,
    k: int,
    j: int,
    upto: nat,
) -> int
    decreases upto,
{
    if upto == 0 {
        0
    } else {
        let i = upto - 1;
        switch_sum(x, q, q_hat_inv, q_hat_modp, k, j, i as nat) + ((x[i][j] * q_hat_inv[i]) % q[i])
            * q_hat_modp[i][k]
    }
}

/// The residues under the target moduli `p` of the sums that `switch_sum` forms
/// over all source moduli.
pub open spec fn approx_switch(
    x: Seq<Seq<u64>>,
    q: Seq<int>,
    q_hat_inv: Seq<u64>,
    q_hat_modp: Seq<Seq<u64>>,
    p: Seq<u64>,
    n: nat,
) -> Seq<Seq<u64>> {
    Seq::new(
        p.len(),
        |k: int|
            Seq::new(
                n,
                |j: int|
                    (switch_sum(x, q, q_hat_inv, q_hat_modp, k, j, x.len()) % (p[k] as int)) as u64,
            ),
    )
}

/// The rows of the first moduli of a combined chain, each less what the rows
/// of the last `p.len()` moduli switch to, times the inverse of the product of
/// those last moduli.
pub open spec fn mod_down(
    x: Seq<Seq<u64>>,
    q: Seq<int>,
    p: Seq<int>,
    p_hat_inv_modp: Seq<u64>,
    p_hat_modq: Seq<Seq<u64>>,
    p_inv_modq: Seq<u64>,
    n: nat,
) -> Seq<Seq<u64>> {
    let switched = approx_switch(
        x.subrange(q.len() as int, x.len() as int),
        p,
        p_hat_inv_modp,
        p_hat_modq,
        Seq::new(q.len(), |i: int| q[i] as u64),
        n,
    );
    Seq::new(
        q.len(),
        |i: int| scale_seq(sub_seq(x[i], switched[i], q[i]), p_inv_modq[i] as int, q[i]),
    )
}

impl Poly {
    /// Switches residues under the moduli `q_ops` to residues under the moduli
    /// `p_moduli`: coefficient by coefficient, the sum over the source moduli
    /// of `(x * q_hat_inv mod q) * q_hat`, reduced under each target modulus.
    /// The multiple of the source product that the sum may hold is not removed.
    pub fn approx_switch_crt_basis(
        q_coefficients: &Matrix,
        q_ops: &Vec<Modulus>,
        degree: usize,
        q_hat_inv_modq: &Vec<u64>,
        q_hat_modp: &Matrix,
        p_moduli: &Vec<u64>,
    ) -> (out: Matrix)
        requires
            residues_in(q_coefficients@, values_of(q_ops@), degree as nat),
            q_hat_inv_modq@.len() == q_ops@.len(),
            q_hat_modp@.len() == q_ops@.len(),
            rectangular(q_hat_modp@, p_moduli@.len() as int),
            forall|k: int| 0 <= k < p_moduli@.len() ==> (#[trigger] p_moduli@[k]) > 0,
            p_moduli@.len() <= isize::MAX,
            degree <= isize::MAX,
            p_moduli@.len() * degree <= isize::MAX,
        ensures
            out@ == approx_switch(
                q_coefficients@,
                values_of(q_ops@),
                q_hat_inv_modq@,
                q_hat_modp@,
                p_moduli@,
                degree as nat,
            ),
            rectangular(out@, degree as int),
            out@.len() == p_moduli@.len(),
            forall|k: int|
                0 <= k < p_moduli@.len() ==> reduced(#[trigger] out@[k], p_moduli@[k] as int),
    {
        let count: usize = q_ops.len();
        let targets: usize = p_moduli.len();
        let ghost x = q_coefficients@;
        let ghost q = values_of(q_ops@);
        // the terms x * q_hat_inv mod q, and the rows of q_hat
        let mut terms: Vec<Vec<u64>> = Vec::with_capacity(count);
        let mut hats: Vec<Vec<u64>> = Vec::with_capacity(count);
        let mut i: usize = 0;
        while i < count
            invariant
                i <= count,
                count == q_ops@.len(),
                x == q_coefficients@,
                q == values_of(q_ops@),
                residues_in(x, q, degree as nat),
                q_hat_inv_modq@.len() == count,
                q_hat_modp@.len() == count,
                rectangular(q_hat_modp@, targets as int),
                terms@.len() == i,
                hats@.len() == i,
                forall|r: int| 0 <= r < i ==> (#[trigger] hats@[r])@ == q_hat_modp@[r],
                forall|r: int| 0 <= r < i ==> (#[trigger] terms@[r])@.len() == degree,
                forall|r: int, c: int|
                    0 <= r < i && 0 <= c < degree ==> (#[trigger] terms@[r]@[c]) == (x[r][c]
                        * q_hat_inv_modq@[r]) % q[r],
                forall|r: int, c: int|
                    0 <= r < i && 0 <= c < degree ==> (#[trigger] terms@[r]@[c]) < MODULUS_LIMIT,
            decreases count - i,
        {
            let m = q_ops[i];
            let qi: u64 = m.modulus();
            let c: u64 = m.reduce(q_hat_inv_modq[i]);
            let mut row = q_coefficients.row(i);
            let ghost before = row@;
            assert(reduced(x[i as int], q[i as int]));
            m.scalar_mul_vec(&mut row, c);
            proof {
                assert forall|col: int| 0 <= col < degree implies (#[trigger] row@[col]) == (x[i as int][col]
                    * q_hat_inv_modq@[i as int]) % q[i as int] by {
                    lemma_mul_mod_noop_general(
                        before[col] as int,
                        q_hat_inv_modq@[i as int] as int,
                        qi as int,
                    );
                }
            }
            terms.push(row);
            hats.push(q_hat_modp.row(i));
            i += 1;
        }
        let mut rows: Vec<Vec<u64>> = Vec::with_capacity(targets);
        let ghost target = approx_switch(x, q, q_hat_inv_modq@, q_hat_modp@, p_moduli@, degree as nat);
        let mut k: usize = 0;
        while k < targets
            invariant
                k <= targets,
                targets == p_moduli@.len(),
                count == q_ops@.len(),
                x.len() == count,
                target == approx_switch(x, q, q_hat_inv_modq@, q_hat_modp@, p_moduli@, degree as nat),
                rectangular(q_hat_modp@, targets as int),
                q_hat_modp@.len() == count,
                terms@.len() == count,
                hats@.len() == count,
                forall|t: int| 0 <= t < p_moduli@.len() ==> (#[trigger] p_moduli@[t]) > 0,
                forall|r: int| 0 <= r < count ==> (#[trigger] hats@[r])@ == q_hat_modp@[r],
                forall|r: int| 0 <= r < count ==> (#[trigger] terms@[r])@.len() == degree,
                forall|r: int, c: int|
                    0 <= r < count && 0 <= c < degree ==> (#[trigger] terms@[r]@[c]) == (x[r][c]
                        * q_hat_inv_modq@[r]) % q[r],
                forall|r: int, c: int|
                    0 <= r < count && 0 <= c < degree ==> (#[trigger] terms@[r]@[c])
                        < MODULUS_LIMIT,
                rows@.len() == k,
                forall|t: int| 0 <= t < k ==> (#[trigger] rows@[t])@ == target[t],
            decreases targets - k,
        {
            let p: u64 = p_moduli[k];
            let mut row: Vec<u64> = Vec::with_capacity(degree);
            let mut j: usize = 0;
            while j < degree
                invariant
                    j <= degree,
                    k < targets,
                    targets == p_moduli@.len(),
                    p == p_moduli@[k as int],
                    p > 0,
                    x.len() == count,
                    target == approx_switch(
                        x,
                        q,
                        q_hat_inv_modq@,
                        q_hat_modp@,
                        p_moduli@,
                        degree as nat,
                    ),
                    rectangular(q_hat_modp@, targets as int),
                    q_hat_modp@.len() == count,
                    terms@.len() == count,
                    hats@.len() == count,
                    forall|r: int| 0 <= r < count ==> (#[trigger] hats@[r])@ == q_hat_modp@[r],
                    forall|r: int| 0 <= r < count ==> (#[trigger] terms@[r])@.len() == degree,
                    forall|r: int, c: int|
                        0 <= r < count && 0 <= c < degree ==> (#[trigger] terms@[r]@[c]) == (x[r][c]
                            * q_hat_inv_modq@[r]) % q[r],
                    forall|r: int, c: int|
                        0 <= r < count && 0 <= c < degree ==> (#[trigger] terms@[r]@[c])
                            < MODULUS_LIMIT,
                    row@.len() == j,
                    forall|c: int| 0 <= c < j ==> (#[trigger] row@[c]) == target[k as int][c],
                decreases degree - j,
            {
                let mut acc: u64 = 0;
                let mut i: usize = 0;
                proof {
                    lemma_small_mod(0, p as nat);
                }
                while i < count
                    invariant
                        i <= count,
                        j < degree,
                        k < targets,
                        p > 0,
                        acc < p,
                        rectangular(q_hat_modp@, targets as int),
                        q_hat_modp@.len() == count,
                        terms@.len() == count,
                        hats@.len() == count,
                        forall|r: int| 0 <= r < count ==> (#[trigger] hats@[r])@ == q_hat_modp@[r],
                        forall|r: int| 0 <= r < count ==> (#[trigger] terms@[r])@.len() == degree,
                        forall|r: int, c: int|
                            0 <= r < count && 0 <= c < degree ==> (#[trigger] terms@[r]@[c]) == (
                            x[r][c] * q_hat_inv_modq@[r]) % q[r],
                        forall|r: int, c: int|
                            0 <= r < count && 0 <= c < degree ==> (#[trigger] terms@[r]@[c])
                                < MODULUS_LIMIT,
                        acc == switch_sum(
                            x,
                            q,
                            q_hat_inv_modq@,
                            q_hat_modp@,
                            k as int,
                            j as int,
                            i as nat,
                        ) % (p as int),
                    decreases count - i,
                {
                    let t: u64 = terms[i][j];
                    let h: u64 = hats[i][k];
                    proof {
                        assert(terms@[i as int]@[j as int] < MODULUS_LIMIT);
                        assert(t * h <= MODULUS_LIMIT * 0xffff_ffff_ffff_ffff) by (nonlinear_arith)
                            requires
                                t <= MODULUS_LIMIT,
                                h <= 0xffff_ffff_ffff_ffff,
                        ;
                        lemma_add_mod_noop(
                            switch_sum(
                                x,
                                q,
                                q_hat_inv_modq@,
                                q_hat_modp@,
                                k as int,
                                j as int,
                                i as nat,
                            ),
                            t * h,
                            p as int,
                        );
                        lemma_mod_twice((acc + t * h) as int, p as int);
                        lemma_add_mod_noop(acc as int, t * h, p as int);
                        lemma_small_mod(acc as nat, p as nat);
                    }
                    let wide: u128 = (acc as u128) + (t as u128) * (h as u128);
                    acc = (wide % (p as u128)) as u64;
                    i += 1;
                }
                row.push(acc);
                j += 1;
            }
            proof {
                assert(row@ =~= target[k as int]);
            }
            rows.push(row);
            k += 1;
        }
        let out = matrix_from_rows(&rows, degree);
        proof {
            assert(out@ =~= target);
        }
        out
    }

    /// Brings residues under a combined chain down to its first moduli: the
    /// rows of the last moduli, those of `p_ctx`, are switched to the first
    /// moduli and subtracted from the rows there, and the difference is
    /// multiplied by the inverse of the product of the last moduli. The
    /// residues are read as coefficients.
    pub fn approx_mod_down(
        qp_coefficients: &Matrix,
        qp_ctx: &Arc<PolyContext>,
        p_ctx: &Arc<PolyContext>,
        p_hat_inv_modp: &Vec<u64>,
        p_hat_modq: &Matrix,
        p_inv_modq: &Vec<u64>,
    ) -> (out: Matrix)
        requires
            residues_in(qp_coefficients@, qp_ctx.moduli(), qp_ctx.n()),
            p_ctx.n() == qp_ctx.n(),
            p_ctx.moduli().len() < qp_ctx.moduli().len(),
            p_ctx.moduli() == qp_ctx.moduli().subrange(
                qp_ctx.moduli().len() - p_ctx.moduli().len(),
                qp_ctx.moduli().len() as int,
            ),
            p_hat_inv_modp@.len() == p_ctx.moduli().len(),
            p_hat_modq@.len() == p_ctx.moduli().len(),
            rectangular(p_hat_modq@, qp_ctx.moduli().len() - p_ctx.moduli().len()),
            p_inv_modq@.len() == qp_ctx.moduli().len() - p_ctx.moduli().len(),
        ensures
            out@ == mod_down(
                qp_coefficients@,
                qp_ctx.moduli().subrange(0, qp_ctx.moduli().len() - p_ctx.moduli().len()),
                p_ctx.moduli(),
                p_hat_inv_modp@,
                p_hat_modq@,
                p_inv_modq@,
                qp_ctx.n(),
            ),
            residues_in(
                out@,
                qp_ctx.moduli().subrange(0, qp_ctx.moduli().len() - p_ctx.moduli().len()),
                qp_ctx.n(),
            ),
    {
        let n: usize = qp_ctx.degree();
        let total: usize = qp_ctx.moduli_count();
        let p_count: usize = p_ctx.moduli_count();
        let q_count: usize = total - p_count;
        let ghost x = qp_coefficients@;
        let ghost q = qp_ctx.moduli().subrange(0, q_count as int);
        let ghost p = p_ctx.moduli();
        proof {
            qp_ctx.lemma_wf();
            p_ctx.lemma_wf();
            assert(q_count * n <= total * n) by (nonlinear_arith)
                requires
                    q_count <= total,
                    n >= 0,
            ;
            assert(p_count * n <= total * n) by (nonlinear_arith)
                requires
                    p_count <= total,
                    n >= 0,
            ;
        }
        // the rows and the moduli of the last part
        let mut p_rows: Vec<Vec<u64>> = Vec::with_capacity(p_count);
        let mut p_ops: Vec<Modulus> = Vec::with_capacity(p_count);
        let mut k: usize = 0;
        while k < p_count
            invariant
                k <= p_count,
                total == q_count + p_count,
                total == qp_ctx.moduli().len(),
                p_count == p_ctx.moduli().len(),
                x == qp_coefficients@,
                p == p_ctx.moduli(),
                p == qp_ctx.moduli().subrange(q_count as int, total as int),
                residues_in(x, qp_ctx.moduli(), qp_ctx.n()),
                n == qp_ctx.n(),
                p_rows@.len() == k,
                p_ops@.len() == k,
                forall|t: int| 0 <= t < k ==> (#[trigger] p_rows@[t])@ == x[q_count + t],
                forall|t: int| 0 <= t < k ==> (#[trigger] p_ops@[t]).value() == p[t],
            decreases p_count - k,
        {
            p_rows.push(qp_coefficients.row(q_count + k));
            p_ops.push(p_ctx.modulus_op(k));
            k += 1;
        }
        proof {
            assert forall|t: int| 0 <= t < p_rows@.len() implies (#[trigger] p_rows@[t])@.len() == n by {
                assert(x[q_count + t].len() == n);
            }
        }
        let p_part = matrix_from_rows(&p_rows, n);
        // the first moduli as words
        let mut q_moduli: Vec<u64> = Vec::with_capacity(q_count);
        let mut i: usize = 0;
        while i < q_count
            invariant
                i <= q_count,
                total == q_count + p_count,
                total == qp_ctx.moduli().len(),
                q == qp_ctx.moduli().subrange(0, q_count as int),
                q_moduli@.len() == i,
                forall|t: int| 0 <= t < i ==> (#[trigger] q_moduli@[t]) == q[t] && q_moduli@[t] >= 2,
            decreases q_count - i,
        {
            q_moduli.push(qp_ctx.modulus_op(i).modulus());
            i += 1;
        }
        proof {
            assert(p_part@ =~= x.subrange(q_count as int, total as int));
            assert(values_of(p_ops@) =~= p);
            assert(q_moduli@ =~= Seq::new(q.len(), |i: int| q[i] as u64));
            assert forall|t: int| 0 <= t < p_part@.len() implies (#[trigger] p_part@[t]).len() == n
                && reduced(p_part@[t], p[t]) by {
                assert(x[q_count + t].len() == n);
                assert(p[t] == qp_ctx.moduli()[q_count + t]);
            }
        }
        let switched = Poly::approx_switch_crt_basis(
            &p_part,
            &p_ops,
            n,
            p_hat_inv_modp,
            p_hat_modq,
            &q_moduli,
        );
        let ghost target = mod_down(x, q, p, p_hat_inv_modp@, p_hat_modq@, p_inv_modq@, n as nat);
        let mut rows: Vec<Vec<u64>> = Vec::with_capacity(q_count);
        let mut i: usize = 0;
        while i < q_count
            invariant
                i <= q_count,
                total == q_count + p_count,
                total == qp_ctx.moduli().len(),
                q == qp_ctx.moduli().subrange(0, q_count as int),
                x == qp_coefficients@,
                residues_in(x, qp_ctx.moduli(), qp_ctx.n()),
                n == qp_ctx.n(),
                p_inv_modq@.len() == q_count,
                switched@.len() == q_count,
                rectangular(switched@, n as int),
                q_moduli@.len() == q_count,
                forall|t: int| 0 <= t < q_count ==> (#[trigger] q_moduli@[t]) == q[t],
                forall|t: int|
                    0 <= t < q_count ==> reduced(#[trigger] switched@[t], q_moduli@[t] as int),
                switched@ == approx_switch(
                    x.subrange(q_count as int, total as int),
                    p,
                    p_hat_inv_modp@,
                    p_hat_modq@,
                    Seq::new(q.len(), |i: int| q[i] as u64),
                    n as nat,
                ),
                target == mod_down(x, q, p, p_hat_inv_modp@, p_hat_modq@, p_inv_modq@, n as nat),
                rows@.len() == i,
                forall|t: int| 0 <= t < i ==> (#[trigger] rows@[t])@ == target[t],
                forall|t: int|
                    0 <= t < i ==> (#[trigger] rows@[t])@.len() == n && reduced(rows@[t]@, q[t]),
            decreases q_count - i,
        {
            let m = qp_ctx.modulus_op(i);
            let mut a = qp_coefficients.row(i);
            let b = switched.row(i);
            assert(x[i as int].len() == n && reduced(x[i as int], qp_ctx.moduli()[i as int]));
            assert(reduced(switched@[i as int], q_moduli@[i as int] as int));
            m.sub_vec(&mut a, &b);
            let c: u64 = m.reduce(p_inv_modq[i]);
            let ghost diff = a@;
            m.scalar_mul_vec(&mut a, c);
            proof {
                assert forall|col: int| 0 <= col < a@.len() implies a@[col] == target[i as int][col] by {
                    lemma_mul_mod_noop_general(
                        diff[col] as int,
                        p_inv_modq@[i as int] as int,
                        m.value(),
                    );
                }
                assert(a@ =~= target[i as int]);
            }
            rows.push(a);
            i += 1;
        }
        let out = matrix_from_rows(&rows, n);
        proof {
            assert(out@ =~= target);
        }
        out
    }
}

} // verus!
