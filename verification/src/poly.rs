//! Polynomials in residue number system form and their contexts.

use crate::bigint::BigNat;
use crate::matrix::{rectangular, Matrix};
use crate::modulus::{
    add_seq, as_ints, inverse_of, mul_seq, no_inverse, reduce_i64_seq, seq_product, reduce_seq, reduced, scale_seq, sub_seq, Modulus,
    MODULUS_LIMIT,
};
use crate::ntt::{supports, NttOperator};
use crate::sampling::{
    draw_words, error_from_word, error_of, uniform_residue, wide_residue,
};
use rand_chacha::ChaCha8Rng;
use std::sync::Arc;
use vstd::arithmetic::div_mod::lemma_mul_mod_noop_general;
use vstd::prelude::*;
use vstd::slice::slice_to_vec;

verus! {

/// How the residues of a polynomial are to be read.
#[derive(Clone, Copy, PartialEq, Eq, Structural, Debug)]
pub enum Representation {
    /// The residues are coefficients.
    Coefficient,
    /// The residues are values at the odd powers of the root of unity.
    Evaluation,
}

/// An ordered chain of moduli with the transform of each, for polynomials of
/// one degree.
pub struct PolyContext {
    moduli_ops: Vec<Modulus>,
    ntt_ops: Vec<NttOperator>,
    degree: usize,
}

/// Whether a context of `count` moduli and the given degree can be built on
/// the moduli `moduli`.
pub open spec fn context_supported(moduli: Seq<u64>, degree: int) -> bool {
    &&& 1 <= moduli.len() <= isize::MAX
    &&& 1 <= degree <= isize::MAX
    &&& moduli.len() * degree <= isize::MAX
    &&& forall|i: int|
        0 <= i < moduli.len() ==> 2 <= (#[trigger] moduli[i]) < MODULUS_LIMIT && supports(
            degree,
            moduli[i] as int,
        )
}

/// `g` is the generator of the modulus `q` in a chain with the product
/// `product`: the product without `q`, times the inverse of that modulo `q`.
pub open spec fn is_generator(g: nat, product: int, q: int) -> bool {
    exists|x: int| 0 <= x < q && #[trigger] inverse_of(product / q, x, q) && g == (product / q) * x
}

impl PolyContext {
    #[verifier::type_invariant]
    spec fn type_inv(self) -> bool {
        self.wf()
    }

    /// The moduli of the chain, first modulus first.
    pub closed spec fn moduli(&self) -> Seq<int> {
        Seq::new(self.moduli_ops@.len(), |i: int| self.moduli_ops@[i].value())
    }

    /// The degree of the polynomials.
    pub closed spec fn n(&self) -> nat {
        self.degree as nat
    }

    /// The transform that belongs to modulus `i`.
    pub closed spec fn ntt(&self, i: int) -> NttOperator {
        self.ntt_ops@[i]
    }

    /// The chain is not empty, every modulus is in range and has its
    /// transform of the context's degree, and a residue matrix fits in memory.
    pub closed spec fn wf(&self) -> bool {
        &&& 1 <= self.moduli_ops@.len() <= isize::MAX
        &&& self.ntt_ops@.len() == self.moduli_ops@.len()
        &&& 1 <= self.degree <= isize::MAX
        &&& self.moduli_ops@.len() * self.degree <= isize::MAX
        &&& forall|i: int| 0 <= i < self.moduli_ops@.len() ==> (#[trigger] self.moduli_ops@[i]).wf()
        &&& forall|i: int|
            0 <= i < self.moduli_ops@.len() ==> {
                &&& (#[trigger] self.ntt_ops@[i]).wf()
                &&& self.ntt_ops@[i].q() == self.moduli_ops@[i].value()
                &&& self.ntt_ops@[i].n() == self.degree
            }
    }

    /// What well-formedness means for the chain.
    pub proof fn lemma_wf(&self)
        requires
            self.wf(),
        ensures
            1 <= self.moduli().len() <= isize::MAX,
            1 <= self.n() <= isize::MAX,
            self.moduli().len() * self.n() <= isize::MAX,
            forall|i: int|
                0 <= i < self.moduli().len() ==> {
                    &&& 2 <= (#[trigger] self.moduli()[i]) < MODULUS_LIMIT
                    &&& self.ntt(i).wf()
                    &&& self.ntt(i).q() == self.moduli()[i]
                    &&& self.ntt(i).n() == self.n()
                },
    {
    }

    /// Builds the context of the given moduli and degree, or nothing when a
    /// modulus is out of range or has no transform of that degree, when the
    /// chain is empty, or when a residue matrix would not fit in memory.
    pub fn new(moduli: &[u64], degree: usize) -> (r: Option<PolyContext>)
        ensures
            r is Some <==> context_supported(moduli@, degree as int),
            r is Some ==> {
                &&& r->0.wf()
                &&& r->0.n() == degree
                &&& r->0.moduli() == as_ints(moduli@)
            },
    {
        let count: usize = moduli.len();
        if count == 0 || degree == 0 || count > isize::MAX as usize || degree > isize::MAX as usize {
            return None;
        }
        match count.checked_mul(degree) {
            None => {
                return None;
            },
            Some(size) => {
                if size > isize::MAX as usize {
                    return None;
                }
            },
        }
        let mut moduli_ops: Vec<Modulus> = Vec::with_capacity(count);
        let mut ntt_ops: Vec<NttOperator> = Vec::with_capacity(count);
        let mut i: usize = 0;
        while i < count
            invariant
                i <= count,
                count == moduli@.len(),
                moduli_ops@.len() == i,
                ntt_ops@.len() == i,
                forall|k: int|
                    0 <= k < i ==> (#[trigger] moduli_ops@[k]).wf() && moduli_ops@[k].value()
                        == moduli@[k],
                forall|k: int|
                    0 <= k < i ==> {
                        &&& (#[trigger] ntt_ops@[k]).wf()
                        &&& ntt_ops@[k].q() == moduli@[k]
                        &&& ntt_ops@[k].n() == degree
                    },
                forall|k: int|
                    0 <= k < i ==> 2 <= (#[trigger] moduli@[k]) < MODULUS_LIMIT && supports(
                        degree as int,
                        moduli@[k] as int,
                    ),
            decreases count - i,
        {
            let q: u64 = moduli[i];
            match Modulus::new(q) {
                None => {
                    return None;
                },
                Some(m) => {
                    match NttOperator::new(m, degree) {
                        None => {
                            return None;
                        },
                        Some(op) => {
                            moduli_ops.push(m);
                            ntt_ops.push(op);
                        },
                    }
                },
            }
            i += 1;
        }
        let ctx = PolyContext { moduli_ops, ntt_ops, degree };
        proof {
            assert(ctx.moduli() =~= as_ints(moduli@));
        }
        Some(ctx)
    }

    /// The product of the moduli of the chain.
    pub fn modulus(&self) -> (r: BigNat)
        ensures
            r@ == seq_product(self.moduli()),
            r@ >= 1,
            self.wf(),
    {
        proof {
            use_type_invariant(self);
        }
        let count: usize = self.moduli_ops.len();
        let mut r = BigNat::from_u64(1);
        let mut i: usize = 0;
        proof {
            assert(self.moduli().take(0).len() == 0);
        }
        while i < count
            invariant
                i <= count,
                count == self.moduli_ops@.len(),
                self.wf(),
                r@ == seq_product(self.moduli().take(i as int)),
                r@ >= 1,
            decreases count - i,
        {
            let q: u64 = self.moduli_ops[i].modulus();
            let ghost before = r@;
            r = r.mul(&BigNat::from_u64(q));
            proof {
                let a = self.moduli().take(i as int);
                let b = self.moduli().take(i + 1);
                assert(b.drop_last() =~= a);
                assert(b.last() == q);
                assert(before * q >= 1) by (nonlinear_arith)
                    requires
                        before >= 1,
                        q >= 2,
                ;
            }
            i += 1;
        }
        proof {
            assert(self.moduli().take(count as int) =~= self.moduli());
        }
        r
    }

    /// The generator of every modulus of the chain, or nothing when the
    /// product of the other moduli has no inverse modulo some modulus.
    pub fn g(&self) -> (r: Option<Vec<BigNat>>)
        ensures
            match r {
                Some(g) => {
                    &&& g@.len() == self.moduli().len()
                    &&& forall|i: int|
                        0 <= i < g@.len() ==> is_generator(
                            (#[trigger] g@[i])@,
                            seq_product(self.moduli()),
                            self.moduli()[i],
                        )
                },
                None => exists|i: int|
                    0 <= i < self.moduli().len() && no_inverse(
                        seq_product(self.moduli()) / (#[trigger] self.moduli()[i]),
                        self.moduli()[i],
                    ),
            },
            self.wf(),
    {
        let product = self.modulus();
        let count: usize = self.moduli_ops.len();
        let mut g: Vec<BigNat> = Vec::with_capacity(count);
        let mut i: usize = 0;
        while i < count
            invariant
                i <= count,
                count == self.moduli_ops@.len(),
                count == self.moduli().len(),
                self.wf(),
                product@ == seq_product(self.moduli()),
                g@.len() == i,
                forall|k: int|
                    0 <= k < i ==> is_generator(
                        (#[trigger] g@[k])@,
                        seq_product(self.moduli()),
                        self.moduli()[k],
                    ),
            decreases count - i,
        {
            let m = self.moduli_ops[i];
            let q: u64 = m.modulus();
            let hat = product.div(&BigNat::from_u64(q));
            let rest: u64 = hat.rem_u64(q);
            match m.inv(rest) {
                None => {
                    proof {
                        assert forall|y: int| !#[trigger] inverse_of(hat@ as int, y, q as int) by {
                            lemma_mul_mod_noop_general(hat@ as int, y, q as int);
                            assert(!inverse_of(rest as int, y, q as int));
                        }
                        assert(self.moduli()[i as int] == q);
                        assert(no_inverse(
                            seq_product(self.moduli()) / self.moduli()[i as int],
                            self.moduli()[i as int],
                        ));
                    }
                    return None;
                },
                Some(x) => {
                    let gi = hat.mul(&BigNat::from_u64(x));
                    proof {
                        lemma_mul_mod_noop_general(hat@ as int, x as int, q as int);
                        assert(inverse_of(hat@ as int, x as int, q as int));
                        assert(self.moduli()[i as int] == q);
                        assert(is_generator(gi@, seq_product(self.moduli()), self.moduli()[i as int]));
                    }
                    g.push(gi);
                },
            }
            i += 1;
        }
        Some(g)
    }

    /// The degree of the polynomials.
    pub fn degree(&self) -> (n: usize)
        ensures
            n == self.n(),
            self.wf(),
    {
        proof {
            use_type_invariant(self);
        }
        self.degree
    }

    /// The number of moduli in the chain.
    pub fn moduli_count(&self) -> (n: usize)
        ensures
            n == self.moduli().len(),
            self.wf(),
    {
        proof {
            use_type_invariant(self);
        }
        self.moduli_ops.len()
    }

    /// Modulus `i` of the chain.
    pub fn modulus_op(&self, i: usize) -> (m: Modulus)
        requires
            i < self.moduli().len(),
        ensures
            m.value() == self.moduli()[i as int],
            m.wf(),
            self.wf(),
    {
        proof {
            use_type_invariant(self);
        }
        self.moduli_ops[i]
    }

    /// The transform that belongs to modulus `i`.
    pub fn ntt_op(&self, i: usize) -> (op: NttOperator)
        requires
            i < self.moduli().len(),
        ensures
            op == self.ntt(i as int),
            op.wf(),
            op.q() == self.moduli()[i as int],
            op.n() == self.n(),
            self.wf(),
    {
        proof {
            use_type_invariant(self);
        }
        self.ntt_ops[i]
    }

    /// The moduli of the chain as words.
    pub open spec fn words(&self) -> Seq<u64> {
        Seq::new(self.moduli().len(), |i: int| self.moduli()[i] as u64)
    }

    /// The moduli of the chain, first modulus first.
    pub fn moduli_vec(&self) -> (v: Vec<u64>)
        ensures
            as_ints(v@) == self.moduli(),
            v@ == self.words(),
            self.wf(),
    {
        proof {
            use_type_invariant(self);
        }
        let n: usize = self.moduli_ops.len();
        let mut v: Vec<u64> = Vec::with_capacity(n);
        let mut i: usize = 0;
        while i < n
            invariant
                i <= n,
                n == self.moduli_ops@.len(),
                v@.len() == i,
                forall|k: int| 0 <= k < i ==> (#[trigger] v@[k]) == self.moduli_ops@[k].value(),
            decreases n - i,
        {
            v.push(self.moduli_ops[i].modulus());
            i += 1;
        }
        proof {
            assert(as_ints(v@) =~= self.moduli());
            assert(v@ =~= self.words());
        }
        v
    }
}

/// `rows` holds one row of `degree` residues for each modulus of `moduli`.
pub open spec fn residues_in(rows: Seq<Seq<u64>>, moduli: Seq<int>, degree: nat) -> bool {
    &&& rows.len() == moduli.len()
    &&& forall|i: int|
        0 <= i < rows.len() ==> (#[trigger] rows[i]).len() == degree && reduced(rows[i], moduli[i])
}

/// Two contexts have the same chain of moduli and the same degree.
pub open spec fn same_chain(a: PolyContext, b: PolyContext) -> bool {
    a.moduli() == b.moduli() && a.n() == b.n()
}

/// An operation on two rows of residues.
#[derive(Clone, Copy, PartialEq, Eq, Structural)]
pub enum RowOp {
    /// Entry by entry sum.
    Add,
    /// Entry by entry difference.
    Sub,
    /// Entry by entry product.
    Mul,
}

/// What `op` makes of the rows `a` and `b` modulo `q`.
pub open spec fn op_seq(op: RowOp, a: Seq<u64>, b: Seq<u64>, q: int) -> Seq<u64> {
    match op {
        RowOp::Add => add_seq(a, b, q),
        RowOp::Sub => sub_seq(a, b, q),
        RowOp::Mul => mul_seq(a, b, q),
    }
}

/// Row by row, what `op` makes of `a` and `b`.
pub open spec fn op_rows(op: RowOp, a: Seq<Seq<u64>>, b: Seq<Seq<u64>>, moduli: Seq<int>) -> Seq<
    Seq<u64>,
> {
    Seq::new(a.len(), |i: int| op_seq(op, a[i], b[i], moduli[i]))
}

/// Row by row, the sum of `a` and `b`.
pub open spec fn add_rows(a: Seq<Seq<u64>>, b: Seq<Seq<u64>>, moduli: Seq<int>) -> Seq<Seq<u64>> {
    op_rows(RowOp::Add, a, b, moduli)
}

/// Row by row, the difference of `a` and `b`.
pub open spec fn sub_rows(a: Seq<Seq<u64>>, b: Seq<Seq<u64>>, moduli: Seq<int>) -> Seq<Seq<u64>> {
    op_rows(RowOp::Sub, a, b, moduli)
}

/// Row by row, the entry by entry product of `a` and `b`.
pub open spec fn mul_rows(a: Seq<Seq<u64>>, b: Seq<Seq<u64>>, moduli: Seq<int>) -> Seq<Seq<u64>> {
    op_rows(RowOp::Mul, a, b, moduli)
}

/// Row `i` of `a` times the scalar `c[i]`.
pub open spec fn scale_rows(a: Seq<Seq<u64>>, c: Seq<u64>, moduli: Seq<int>) -> Seq<Seq<u64>> {
    Seq::new(a.len(), |i: int| scale_seq(a[i], c[i] as int, moduli[i]))
}

/// The values `v` reduced modulo each modulus.
pub open spec fn lift_rows(v: Seq<u64>, moduli: Seq<int>) -> Seq<Seq<u64>> {
    Seq::new(moduli.len(), |i: int| reduce_seq(v, moduli[i]))
}

/// The signed values `v` reduced modulo each modulus.
pub open spec fn lift_i64_rows(v: Seq<i64>, moduli: Seq<int>) -> Seq<Seq<u64>> {
    Seq::new(moduli.len(), |i: int| reduce_i64_seq(v, moduli[i]))
}

/// The numbers `v` reduced modulo each modulus.
pub open spec fn lift_nat_rows(v: Seq<nat>, moduli: Seq<int>) -> Seq<Seq<u64>> {
    Seq::new(moduli.len(), |i: int| Seq::new(v.len(), |j: int| ((v[j] as int) % moduli[i]) as u64))
}

/// Every row of `a` through the forward transform of its modulus.
pub open spec fn forward_rows(a: Seq<Seq<u64>>, ctx: PolyContext) -> Seq<Seq<u64>> {
    Seq::new(a.len(), |i: int| ctx.ntt(i).forward_of(a[i]))
}

/// Every row of `a` through the backward transform of its modulus.
pub open spec fn backward_rows(a: Seq<Seq<u64>>, ctx: PolyContext) -> Seq<Seq<u64>> {
    Seq::new(a.len(), |i: int| ctx.ntt(i).backward_of(a[i]))
}

/// The rows of `a` as `to` asks, when they stand as `from` says.
pub open spec fn converted_rows(
    a: Seq<Seq<u64>>,
    ctx: PolyContext,
    from: Representation,
    to: Representation,
) -> Seq<Seq<u64>> {
    if from == to {
        a
    } else if to == Representation::Evaluation {
        forward_rows(a, ctx)
    } else {
        backward_rows(a, ctx)
    }
}

/// The residues that the words `words` give: two words for each residue, row
/// after row.
pub open spec fn uniform_rows(words: Seq<u64>, moduli: Seq<int>, n: nat) -> Seq<Seq<u64>> {
    Seq::new(
        moduli.len(),
        |i: int|
            Seq::new(
                n,
                |j: int|
                    wide_residue(words[2 * (i * n + j)], words[2 * (i * n + j) + 1], moduli[i]),
            ),
    )
}

/// The errors that the words `words` give for the bound `bound`.
pub open spec fn error_values(words: Seq<u64>, bound: nat) -> Seq<i64> {
    Seq::new(words.len(), |j: int| error_of(words[j], bound) as i64)
}

/// `g` holds the generator of every modulus of the chain.
pub open spec fn is_generators(g: Seq<nat>, moduli: Seq<int>) -> bool {
    &&& g.len() == moduli.len()
    &&& forall|i: int|
        0 <= i < g.len() ==> is_generator(#[trigger] g[i], seq_product(moduli), moduli[i])
}

/// The sum over the first `upto` moduli of residue `j` times the generator.
pub open spec fn crt_sum(x: Seq<Seq<u64>>, g: Seq<nat>, j: int, upto: nat) -> nat
    decreases upto,
{
    if upto == 0 {
        0
    } else {
        crt_sum(x, g, j, (upto - 1) as nat) + x[upto - 1][j] as nat * g[upto - 1]
    }
}

/// The numbers below the product of the moduli that the residues stand for.
pub open spec fn lifted(x: Seq<Seq<u64>>, g: Seq<nat>, moduli: Seq<int>, n: nat) -> Seq<nat> {
    Seq::new(n, |j: int| (crt_sum(x, g, j, moduli.len()) % (seq_product(moduli) as nat)) as nat)
}

/// The values of a sequence of numbers.
pub open spec fn nat_values(v: Seq<BigNat>) -> Seq<nat> {
    Seq::new(v.len(), |i: int| v[i]@)
}

/// `Arc::clone`: another handle to the same context.
#[verifier::external_body]
pub(crate) fn share(ctx: &Arc<PolyContext>) -> (r: Arc<PolyContext>)
    ensures
        *r == **ctx,
{
    ctx.clone()
}

/// The matrix whose rows are the vectors of `rows`.
pub(crate) fn matrix_from_rows(rows: &Vec<Vec<u64>>, cols: usize) -> (m: Matrix)
    requires
        rows@.len() <= isize::MAX,
        cols <= isize::MAX,
        rows@.len() * cols <= isize::MAX,
        forall|i: int| 0 <= i < rows@.len() ==> (#[trigger] rows@[i])@.len() == cols,
    ensures
        m@.len() == rows@.len(),
        forall|i: int| 0 <= i < rows@.len() ==> (#[trigger] m@[i]) == rows@[i]@,
{
    let count: usize = rows.len();
    let mut m = Matrix::zeros(count, cols);
    let mut i: usize = 0;
    while i < count
        invariant
            i <= count,
            count == rows@.len(),
            m@.len() == count,
            rectangular(m@, cols as int),
            forall|k: int| 0 <= k < rows@.len() ==> (#[trigger] rows@[k])@.len() == cols,
            forall|k: int| 0 <= k < i ==> (#[trigger] m@[k]) == rows@[k]@,
        decreases count - i,
    {
        m.set_row(i, &rows[i]);
        i += 1;
    }
    m
}

/// A polynomial: one row of residues for each modulus of its context.
pub struct Poly {
    context: Arc<PolyContext>,
    representation: Representation,
    coefficients: Matrix,
}

impl Clone for Poly {
    /// A polynomial with the same residues in the same context.
    fn clone(&self) -> (r: Poly)
        ensures
            r.ctx() == self.ctx(),
            r.repr() == self.repr(),
            r.rows() == self.rows(),
            r.wf(),
    {
        proof {
            use_type_invariant(self);
        }
        Poly {
            context: share(&self.context),
            representation: self.representation,
            coefficients: self.coefficients.clone(),
        }
    }
}

impl Poly {
    /// Every polynomial is well formed.
    #[verifier::type_invariant]
    pub(crate) open spec fn type_inv(self) -> bool {
        self.wf()
    }

    /// The context of the polynomial.
    pub closed spec fn ctx(&self) -> PolyContext {
        *self.context
    }

    /// The representation of the polynomial.
    pub closed spec fn repr(&self) -> Representation {
        self.representation
    }

    /// The residues of the polynomial, one row for each modulus.
    pub closed spec fn rows(&self) -> Seq<Seq<u64>> {
        self.coefficients@
    }

    /// Every row holds as many residues of its modulus as the degree says.
    pub open spec fn wf(&self) -> bool {
        self.ctx().wf() && residues_in(self.rows(), self.ctx().moduli(), self.ctx().n())
    }

    /// The polynomial of the given residues.
    pub fn new(coefficients: Matrix, ctx: &Arc<PolyContext>, representation: Representation) -> (r:
        Poly)
        requires
            residues_in(coefficients@, ctx.moduli(), ctx.n()),
        ensures
            r.ctx() == **ctx,
            r.repr() == representation,
            r.rows() == coefficients@,
            r.wf(),
    {
        let n: usize = ctx.degree();
        Poly { context: share(ctx), representation, coefficients }
    }

    /// The polynomial whose residues are all zero.
    pub fn zero(ctx: &Arc<PolyContext>, representation: &Representation) -> (r: Poly)
        ensures
            r.ctx() == **ctx,
            r.repr() == *representation,
            r.wf(),
            forall|i: int, j: int|
                0 <= i < ctx.moduli().len() && 0 <= j < ctx.n() ==> (#[trigger] r.rows()[i][j]) == 0,
    {
        let n: usize = ctx.degree();
        let count: usize = ctx.moduli_count();
        proof {
            ctx.lemma_wf();
        }
        let m = Matrix::zeros(count, n);
        proof {
            assert forall|i: int| 0 <= i < m@.len() implies (#[trigger] m@[i]).len() == n && reduced(
                m@[i],
                ctx.moduli()[i],
            ) by {
                assert forall|j: int| 0 <= j < m@[i].len() implies (#[trigger] m@[i][j]) < ctx.moduli()[i] by {
                    assert(m@[i][j] == 0);
                }
            }
        }
        Poly::new(m, ctx, *representation)
    }

    /// The context of the polynomial.
    pub fn context(&self) -> (c: &Arc<PolyContext>)
        ensures
            **c == self.ctx(),
            self.wf(),
    {
        proof {
            use_type_invariant(self);
        }
        &self.context
    }

    /// The representation of the polynomial.
    pub fn representation(&self) -> (r: Representation)
        ensures
            r == self.repr(),
            self.wf(),
    {
        proof {
            use_type_invariant(self);
        }
        self.representation
    }

    /// The residues of the polynomial modulo modulus `i`.
    pub fn row(&self, i: usize) -> (r: Vec<u64>)
        requires
            i < self.ctx().moduli().len(),
        ensures
            r@ == self.rows()[i as int],
            r@.len() == self.ctx().n(),
            reduced(r@, self.ctx().moduli()[i as int]),
            self.wf(),
    {
        proof {
            use_type_invariant(self);
        }
        self.coefficients.row(i)
    }

    /// The residues of the polynomial, one row for each modulus.
    pub fn to_rows(&self) -> (r: Vec<Vec<u64>>)
        ensures
            r@.len() == self.rows().len(),
            forall|i: int| 0 <= i < r@.len() ==> (#[trigger] r@[i])@ == self.rows()[i],
            self.wf(),
    {
        proof {
            use_type_invariant(self);
        }
        let count: usize = self.coefficients.nrows();
        let mut r: Vec<Vec<u64>> = Vec::with_capacity(count);
        let mut i: usize = 0;
        while i < count
            invariant
                i <= count,
                count == self.coefficients@.len(),
                r@.len() == i,
                forall|k: int| 0 <= k < i ==> (#[trigger] r@[k])@ == self.coefficients@[k],
            decreases count - i,
        {
            r.push(self.coefficients.row(i));
            i += 1;
        }
        r
    }
    /// The polynomial whose rows are `rows`, or nothing when their shape is
    /// not that of the context or an entry is not a residue of its modulus.
    pub fn from_rows(rows: &Vec<Vec<u64>>, ctx: &Arc<PolyContext>, representation: Representation) -> (r:
        Option<Poly>)
        ensures
            r is Some <==> residues_in(rows@.map_values(|v: Vec<u64>| v@), ctx.moduli(), ctx.n()),
            r is Some ==> {
                &&& r->0.ctx() == **ctx
                &&& r->0.repr() == representation
                &&& r->0.rows() == rows@.map_values(|v: Vec<u64>| v@)
                &&& r->0.wf()
            },
    {
        let n: usize = ctx.degree();
        let count: usize = ctx.moduli_count();
        let ghost target = rows@.map_values(|v: Vec<u64>| v@);
        proof {
            ctx.lemma_wf();
        }
        if rows.len() != count {
            return None;
        }
        let mut i: usize = 0;
        while i < count
            invariant
                i <= count,
                count == rows@.len(),
                count == ctx.moduli().len(),
                n == ctx.n(),
                ctx.wf(),
                target == rows@.map_values(|v: Vec<u64>| v@),
                forall|k: int|
                    0 <= k < i ==> (#[trigger] target[k]).len() == n && reduced(
                        target[k],
                        ctx.moduli()[k],
                    ),
            decreases count - i,
        {
            let row = &rows[i];
            assert(target[i as int] == row@);
            if row.len() != n {
                return None;
            }
            let q: u64 = ctx.modulus_op(i).modulus();
            let mut j: usize = 0;
            while j < n
                invariant
                    j <= n,
                    n == row@.len(),
                    i < count,
                    count == ctx.moduli().len(),
                    target == rows@.map_values(|v: Vec<u64>| v@),
                    target[i as int] == row@,
                    q == ctx.moduli()[i as int],
                    forall|k: int| 0 <= k < j ==> (#[trigger] row@[k]) < q,
                decreases n - j,
            {
                if row[j] >= q {
                    proof {
                        assert(target[i as int][j as int] >= ctx.moduli()[i as int]);
                        assert(!reduced(target[i as int], ctx.moduli()[i as int]));
                    }
                    return None;
                }
                j += 1;
            }
            i += 1;
        }
        assert forall|k: int| 0 <= k < rows@.len() implies (#[trigger] rows@[k])@.len() == n by {
            assert(target[k] == rows@[k]@);
        }
        let m = matrix_from_rows(rows, n);
        proof {
            assert(m@ =~= target);
        }
        Some(Poly::new(m, ctx, representation))
    }

    /// The polynomial with the given values, each reduced modulo every modulus.
    pub fn try_convert_from_u64(values: &[u64], ctx: &Arc<PolyContext>, representation: &Representation) -> (r:
        Poly)
        requires
            values@.len() == ctx.n(),
        ensures
            r.ctx() == **ctx,
            r.repr() == *representation,
            r.rows() == lift_rows(values@, ctx.moduli()),
            r.wf(),
    {
        let n: usize = ctx.degree();
        let count: usize = ctx.moduli_count();
        proof {
            ctx.lemma_wf();
        }
        let mut rows: Vec<Vec<u64>> = Vec::with_capacity(count);
        let mut i: usize = 0;
        while i < count
            invariant
                i <= count,
                count == ctx.moduli().len(),
                n == ctx.n(),
                n == values@.len(),
                rows@.len() == i,
                forall|k: int|
                    0 <= k < i ==> (#[trigger] rows@[k])@ == lift_rows(values@, ctx.moduli())[k],
                forall|k: int|
                    0 <= k < i ==> (#[trigger] rows@[k])@.len() == n && reduced(
                        rows@[k]@,
                        ctx.moduli()[k],
                    ),
            decreases count - i,
        {
            let mut row = slice_to_vec(values);
            ctx.modulus_op(i).reduce_vec(&mut row);
            rows.push(row);
            i += 1;
        }
        let m = matrix_from_rows(&rows, n);
        proof {
            assert(m@ =~= lift_rows(values@, ctx.moduli()));
        }
        Poly::new(m, ctx, *representation)
    }

    /// The polynomial with the given signed values, each reduced modulo every
    /// modulus.
    pub fn try_convert_from_i64(values: &Vec<i64>, ctx: &Arc<PolyContext>, representation: &Representation) -> (r:
        Poly)
        requires
            values@.len() == ctx.n(),
        ensures
            r.ctx() == **ctx,
            r.repr() == *representation,
            r.rows() == lift_i64_rows(values@, ctx.moduli()),
            r.wf(),
    {
        let n: usize = ctx.degree();
        let count: usize = ctx.moduli_count();
        proof {
            ctx.lemma_wf();
        }
        let mut rows: Vec<Vec<u64>> = Vec::with_capacity(count);
        let mut i: usize = 0;
        while i < count
            invariant
                i <= count,
                count == ctx.moduli().len(),
                n == ctx.n(),
                n == values@.len(),
                rows@.len() == i,
                forall|k: int|
                    0 <= k < i ==> (#[trigger] rows@[k])@ == lift_i64_rows(values@, ctx.moduli())[k],
                forall|k: int|
                    0 <= k < i ==> (#[trigger] rows@[k])@.len() == n && reduced(
                        rows@[k]@,
                        ctx.moduli()[k],
                    ),
            decreases count - i,
        {
            let row = ctx.modulus_op(i).reduce_vec_i64(values);
            rows.push(row);
            i += 1;
        }
        let m = matrix_from_rows(&rows, n);
        proof {
            assert(m@ =~= lift_i64_rows(values@, ctx.moduli()));
        }
        Poly::new(m, ctx, *representation)
    }

    /// The polynomial with the given numbers, each reduced modulo every modulus.
    pub fn try_convert_from_biguint(values: &Vec<BigNat>, ctx: &Arc<PolyContext>, representation: &Representation) -> (r:
        Poly)
        requires
            values@.len() == ctx.n(),
        ensures
            r.ctx() == **ctx,
            r.repr() == *representation,
            r.rows() == lift_nat_rows(values@.map_values(|v: BigNat| v@), ctx.moduli()),
            r.wf(),
    {
        let n: usize = ctx.degree();
        let count: usize = ctx.moduli_count();
        let ghost nats = values@.map_values(|v: BigNat| v@);
        proof {
            ctx.lemma_wf();
        }
        let mut rows: Vec<Vec<u64>> = Vec::with_capacity(count);
        let mut i: usize = 0;
        while i < count
            invariant
                i <= count,
                count == ctx.moduli().len(),
                n == ctx.n(),
                n == values@.len(),
                ctx.wf(),
                nats == values@.map_values(|v: BigNat| v@),
                rows@.len() == i,
                forall|k: int| 0 <= k < i ==> (#[trigger] rows@[k])@ == lift_nat_rows(nats, ctx.moduli())[k],
                forall|k: int|
                    0 <= k < i ==> (#[trigger] rows@[k])@.len() == n && reduced(
                        rows@[k]@,
                        ctx.moduli()[k],
                    ),
            decreases count - i,
        {
            let q: u64 = ctx.modulus_op(i).modulus();
            let mut row: Vec<u64> = Vec::with_capacity(n);
            let mut j: usize = 0;
            while j < n
                invariant
                    j <= n,
                    n == values@.len(),
                    q >= 2,
                    nats == values@.map_values(|v: BigNat| v@),
                    row@.len() == j,
                    forall|k: int| 0 <= k < j ==> (#[trigger] row@[k]) == (nats[k] as int) % (q as int),
                    forall|k: int| 0 <= k < j ==> (#[trigger] row@[k]) < q,
                decreases n - j,
            {
                let v: u64 = values[j].rem_u64(q);
                row.push(v);
                j += 1;
            }
            proof {
                assert(row@ =~= lift_nat_rows(nats, ctx.moduli())[i as int]);
            }
            rows.push(row);
            i += 1;
        }
        let m = matrix_from_rows(&rows, n);
        proof {
            assert(m@ =~= lift_nat_rows(nats, ctx.moduli()));
        }
        Poly::new(m, ctx, *representation)
    }

    /// Brings the polynomial into the representation `to`: from coefficients
    /// by the forward transform of every row, from values by the backward one.
    pub fn change_representation(&mut self, to: Representation)
        ensures
            final(self).ctx() == old(self).ctx(),
            final(self).repr() == to,
            final(self).rows() == converted_rows(
                old(self).rows(),
                old(self).ctx(),
                old(self).repr(),
                to,
            ),
            final(self).wf(),
    {
        proof {
            use_type_invariant(&*self);
        }
        if self.representation == to {
            return ;
        }
        let n: usize = self.context.degree();
        let count: usize = self.context.moduli_count();
        proof {
            self.context.lemma_wf();
        }
        let ghost target = converted_rows(self.rows(), self.ctx(), self.repr(), to);
        let mut rows: Vec<Vec<u64>> = Vec::with_capacity(count);
        let mut i: usize = 0;
        while i < count
            invariant
                i <= count,
                count == self.ctx().moduli().len(),
                n == self.ctx().n(),
                self.wf(),
                self.repr() != to,
                *self == *old(self),
                target == converted_rows(self.rows(), self.ctx(), self.repr(), to),
                rows@.len() == i,
                forall|k: int| 0 <= k < i ==> (#[trigger] rows@[k])@ == target[k],
                forall|k: int|
                    0 <= k < i ==> (#[trigger] rows@[k])@.len() == n && reduced(
                        rows@[k]@,
                        self.ctx().moduli()[k],
                    ),
            decreases count - i,
        {
            let mut row = self.coefficients.row(i);
            let op = self.context.ntt_op(i);
            match to {
                Representation::Evaluation => {
                    op.forward(&mut row);
                },
                Representation::Coefficient => {
                    op.backward(&mut row);
                },
            }
            rows.push(row);
            i += 1;
        }
        let m = matrix_from_rows(&rows, n);
        proof {
            assert(m@ =~= target);
        }
        self.coefficients = m;
        self.representation = to;
    }

    /// Row by row, what `op` makes of this polynomial and `rhs`.
    fn zip_rows(&self, rhs: &Poly, op: RowOp) -> (m: Matrix)
        requires
            same_chain(self.ctx(), rhs.ctx()),
        ensures
            m@ == op_rows(op, self.rows(), rhs.rows(), self.ctx().moduli()),
            residues_in(m@, self.ctx().moduli(), self.ctx().n()),
    {
        proof {
            use_type_invariant(self);
            use_type_invariant(rhs);
        }
        let n: usize = self.context.degree();
        let count: usize = self.context.moduli_count();
        proof {
            self.context.lemma_wf();
        }
        let ghost target = op_rows(op, self.rows(), rhs.rows(), self.ctx().moduli());
        let mut rows: Vec<Vec<u64>> = Vec::with_capacity(count);
        let mut i: usize = 0;
        while i < count
            invariant
                i <= count,
                count == self.ctx().moduli().len(),
                n == self.ctx().n(),
                self.wf(),
                rhs.wf(),
                same_chain(self.ctx(), rhs.ctx()),
                target == op_rows(op, self.rows(), rhs.rows(), self.ctx().moduli()),
                rows@.len() == i,
                forall|k: int| 0 <= k < i ==> (#[trigger] rows@[k])@ == target[k],
                forall|k: int|
                    0 <= k < i ==> (#[trigger] rows@[k])@.len() == n && reduced(
                        rows@[k]@,
                        self.ctx().moduli()[k],
                    ),
            decreases count - i,
        {
            let mut a = self.coefficients.row(i);
            let b = rhs.coefficients.row(i);
            let q = self.context.modulus_op(i);
            match op {
                RowOp::Add => {
                    q.add_vec(&mut a, &b);
                },
                RowOp::Sub => {
                    q.sub_vec(&mut a, &b);
                },
                RowOp::Mul => {
                    q.mul_vec(&mut a, &b);
                },
            }
            rows.push(a);
            i += 1;
        }
        let m = matrix_from_rows(&rows, n);
        proof {
            assert(m@ =~= target);
        }
        m
    }

    /// Adds `rhs` to the polynomial.
    pub fn add_assign(&mut self, rhs: &Poly)
        requires
            same_chain(old(self).ctx(), rhs.ctx()),
            old(self).repr() == rhs.repr(),
        ensures
            final(self).ctx() == old(self).ctx(),
            final(self).repr() == old(self).repr(),
            final(self).rows() == add_rows(old(self).rows(), rhs.rows(), old(self).ctx().moduli()),
            final(self).wf(),
    {
        proof {
            use_type_invariant(&*self);
        }
        let m = self.zip_rows(rhs, RowOp::Add);
        self.coefficients = m;
    }

    /// Subtracts `rhs` from the polynomial.
    pub fn sub_assign(&mut self, rhs: &Poly)
        requires
            same_chain(old(self).ctx(), rhs.ctx()),
            old(self).repr() == rhs.repr(),
        ensures
            final(self).ctx() == old(self).ctx(),
            final(self).repr() == old(self).repr(),
            final(self).rows() == sub_rows(old(self).rows(), rhs.rows(), old(self).ctx().moduli()),
            final(self).wf(),
    {
        proof {
            use_type_invariant(&*self);
        }
        let m = self.zip_rows(rhs, RowOp::Sub);
        self.coefficients = m;
    }

    /// Multiplies the polynomial by `rhs`, residue by residue.
    pub fn mul_assign(&mut self, rhs: &Poly)
        requires
            same_chain(old(self).ctx(), rhs.ctx()),
            old(self).repr() == rhs.repr(),
        ensures
            final(self).ctx() == old(self).ctx(),
            final(self).repr() == old(self).repr(),
            final(self).rows() == mul_rows(old(self).rows(), rhs.rows(), old(self).ctx().moduli()),
            final(self).wf(),
    {
        proof {
            use_type_invariant(&*self);
        }
        let m = self.zip_rows(rhs, RowOp::Mul);
        self.coefficients = m;
    }

    /// The sum of the polynomial and `rhs`.
    pub fn add(&self, rhs: &Poly) -> (r: Poly)
        requires
            same_chain(self.ctx(), rhs.ctx()),
            self.repr() == rhs.repr(),
        ensures
            r.ctx() == self.ctx(),
            r.repr() == self.repr(),
            r.rows() == add_rows(self.rows(), rhs.rows(), self.ctx().moduli()),
            r.wf(),
    {
        let m = self.zip_rows(rhs, RowOp::Add);
        Poly::new(m, &self.context, self.representation)
    }

    /// The difference of the polynomial and `rhs`.
    pub fn sub(&self, rhs: &Poly) -> (r: Poly)
        requires
            same_chain(self.ctx(), rhs.ctx()),
            self.repr() == rhs.repr(),
        ensures
            r.ctx() == self.ctx(),
            r.repr() == self.repr(),
            r.rows() == sub_rows(self.rows(), rhs.rows(), self.ctx().moduli()),
            r.wf(),
    {
        let m = self.zip_rows(rhs, RowOp::Sub);
        Poly::new(m, &self.context, self.representation)
    }

    /// The residue by residue product of the polynomial and `rhs`.
    pub fn mul(&self, rhs: &Poly) -> (r: Poly)
        requires
            same_chain(self.ctx(), rhs.ctx()),
            self.repr() == rhs.repr(),
        ensures
            r.ctx() == self.ctx(),
            r.repr() == self.repr(),
            r.rows() == mul_rows(self.rows(), rhs.rows(), self.ctx().moduli()),
            r.wf(),
    {
        let m = self.zip_rows(rhs, RowOp::Mul);
        Poly::new(m, &self.context, self.representation)
    }

    /// Multiplies row `i` of the polynomial by the scalar `scalars[i]`.
    pub fn scalar_mul(&mut self, scalars: &[u64])
        requires
            scalars@.len() == old(self).ctx().moduli().len(),
        ensures
            final(self).ctx() == old(self).ctx(),
            final(self).repr() == old(self).repr(),
            final(self).rows() == scale_rows(old(self).rows(), scalars@, old(self).ctx().moduli()),
            final(self).wf(),
    {
        proof {
            use_type_invariant(&*self);
        }
        let n: usize = self.context.degree();
        let count: usize = self.context.moduli_count();
        proof {
            self.context.lemma_wf();
        }
        let ghost target = scale_rows(self.rows(), scalars@, self.ctx().moduli());
        let mut rows: Vec<Vec<u64>> = Vec::with_capacity(count);
        let mut i: usize = 0;
        while i < count
            invariant
                i <= count,
                count == self.ctx().moduli().len(),
                count == scalars@.len(),
                n == self.ctx().n(),
                self.wf(),
                *self == *old(self),
                target == scale_rows(self.rows(), scalars@, self.ctx().moduli()),
                rows@.len() == i,
                forall|k: int| 0 <= k < i ==> (#[trigger] rows@[k])@ == target[k],
                forall|k: int|
                    0 <= k < i ==> (#[trigger] rows@[k])@.len() == n && reduced(
                        rows@[k]@,
                        self.ctx().moduli()[k],
                    ),
            decreases count - i,
        {
            let mut a = self.coefficients.row(i);
            let q = self.context.modulus_op(i);
            let c: u64 = q.reduce(scalars[i]);
            let ghost before = a@;
            q.scalar_mul_vec(&mut a, c);
            proof {
                assert forall|j: int| 0 <= j < a@.len() implies a@[j] == target[i as int][j] by {
                    lemma_mul_mod_noop_general(before[j] as int, scalars@[i as int] as int, q.value());
                }
                assert(a@ =~= target[i as int]);
            }
            rows.push(a);
            i += 1;
        }
        let m = matrix_from_rows(&rows, n);
        proof {
            assert(m@ =~= target);
        }
        self.coefficients = m;
    }
    /// The polynomial whose residues the words from position `start` on give,
    /// two words for each residue, row after row.
    pub fn from_words(words: &Vec<u64>, start: usize, ctx: &Arc<PolyContext>, representation: &Representation) -> (r:
        Poly)
        requires
            start + 2 * (ctx.moduli().len() * ctx.n()) <= words@.len(),
        ensures
            r.ctx() == **ctx,
            r.repr() == *representation,
            r.rows() == uniform_rows(
                words@.subrange(start as int, start + 2 * (ctx.moduli().len() * ctx.n())),
                ctx.moduli(),
                ctx.n(),
            ),
            r.wf(),
    {
        let n: usize = ctx.degree();
        let count: usize = ctx.moduli_count();
        proof {
            ctx.lemma_wf();
        }
        let ghost part = words@.subrange(start as int, start + 2 * (count * n));
        let ghost target = uniform_rows(part, ctx.moduli(), n as nat);
        let mut rows: Vec<Vec<u64>> = Vec::with_capacity(count);
        let mut pos: usize = start;
        let mut i: usize = 0;
        let len: usize = words.len();
        while i < count
            invariant
                len == words@.len(),
                i <= count,
                count == ctx.moduli().len(),
                n == ctx.n(),
                ctx.wf(),
                start + 2 * (count * n) <= words@.len(),
                part == words@.subrange(start as int, start + 2 * (count * n)),
                target == uniform_rows(part, ctx.moduli(), n as nat),
                pos == start + 2 * (i * n),
                rows@.len() == i,
                forall|k: int| 0 <= k < i ==> (#[trigger] rows@[k])@ == target[k],
                forall|k: int|
                    0 <= k < i ==> (#[trigger] rows@[k])@.len() == n && reduced(
                        rows@[k]@,
                        ctx.moduli()[k],
                    ),
            decreases count - i,
        {
            let q = ctx.modulus_op(i);
            let mut row: Vec<u64> = Vec::with_capacity(n);
            let mut j: usize = 0;
            proof {
                assert((i + 1) * n <= count * n) by (nonlinear_arith)
                    requires
                        i + 1 <= count,
                        n >= 0,
                ;
                assert((i + 1) * n == i * n + n) by (nonlinear_arith);
            }
            while j < n
                invariant
                    len == words@.len(),
                    j <= n,
                    i < count,
                    count == ctx.moduli().len(),
                    q.value() == ctx.moduli()[i as int],
                    i * n + n <= count * n,
                    start + 2 * (count * n) <= words@.len(),
                    part == words@.subrange(start as int, start + 2 * (count * n)),
                    target == uniform_rows(part, ctx.moduli(), n as nat),
                    pos == start + 2 * (i * n + j),
                    row@.len() == j,
                    forall|k: int| 0 <= k < j ==> (#[trigger] row@[k]) == target[i as int][k],
                    forall|k: int| 0 <= k < j ==> (#[trigger] row@[k]) < q.value(),
                decreases n - j,
            {
                assert(pos + 2 <= words@.len()) by (nonlinear_arith)
                    requires
                        pos == start + 2 * (i * n + j),
                        j < n,
                        i * n + n <= count * n,
                        start + 2 * (count * n) <= words@.len(),
                ;
                let v: u64 = uniform_residue(words[pos], words[pos + 1], &q);
                proof {
                    assert(part[2 * (i * n + j)] == words@[pos as int]);
                    assert(part[2 * (i * n + j) + 1] == words@[pos + 1]);
                }
                row.push(v);
                pos += 2;
                j += 1;
            }
            proof {
                assert(row@ =~= target[i as int]);
            }
            rows.push(row);
            i += 1;
        }
        let m = matrix_from_rows(&rows, n);
        proof {
            assert(m@ =~= target);
        }
        Poly::new(m, ctx, *representation)
    }

    /// A polynomial with residues drawn from `rng`, uniform up to a bias
    /// below `2^-66`.
    pub fn random(ctx: &Arc<PolyContext>, representation: &Representation, rng: &mut ChaCha8Rng) -> (r:
        Poly)
        ensures
            r.ctx() == **ctx,
            r.repr() == *representation,
            r.wf(),
    {
        let n: usize = ctx.degree();
        let count: usize = ctx.moduli_count();
        proof {
            ctx.lemma_wf();
        }
        let words = draw_words(rng, 2 * (count * n));
        Poly::from_words(&words, 0, ctx, representation)
    }

    /// The polynomial whose coefficients are the errors that the words give
    /// for the bound `bound`, brought into the representation asked for.
    pub fn from_error_words(words: &Vec<u64>, bound: u32, ctx: &Arc<PolyContext>, representation: &Representation) -> (r:
        Poly)
        requires
            bound <= 32,
            words@.len() == ctx.n(),
        ensures
            r.ctx() == **ctx,
            r.repr() == *representation,
            r.rows() == converted_rows(
                lift_i64_rows(error_values(words@, bound as nat), ctx.moduli()),
                **ctx,
                Representation::Coefficient,
                *representation,
            ),
            r.wf(),
    {
        let n: usize = words.len();
        let mut errors: Vec<i64> = Vec::with_capacity(n);
        let mut j: usize = 0;
        while j < n
            invariant
                j <= n,
                n == words@.len(),
                bound <= 32,
                errors@.len() == j,
                forall|k: int|
                    0 <= k < j ==> (#[trigger] errors@[k]) == error_values(words@, bound as nat)[k],
            decreases n - j,
        {
            errors.push(error_from_word(words[j], bound));
            j += 1;
        }
        proof {
            assert(errors@ =~= error_values(words@, bound as nat));
        }
        let mut r = Poly::try_convert_from_i64(&errors, ctx, &Representation::Coefficient);
        r.change_representation(*representation);
        r
    }

    /// A polynomial with small coefficients drawn from `rng`: each follows the
    /// centred binomial distribution on `[-bound, bound]`, which stands for the
    /// discrete Gaussian.
    pub fn random_gaussian(ctx: &Arc<PolyContext>, representation: &Representation, bound: u32, rng: &mut ChaCha8Rng) -> (r:
        Poly)
        requires
            bound <= 32,
        ensures
            r.ctx() == **ctx,
            r.repr() == *representation,
            r.wf(),
    {
        let n: usize = ctx.degree();
        let words = draw_words(rng, n);
        Poly::from_error_words(&words, bound, ctx, representation)
    }

    /// For every position, the number below the product of the moduli that
    /// has the residues of the polynomial; nothing when the chain has no
    /// generators.
    pub fn to_biguint(&self) -> (r: Option<Vec<BigNat>>)
        ensures
            match r {
                Some(v) => exists|g: Seq<nat>| #[trigger]
                    is_generators(g, self.ctx().moduli()) && nat_values(v@) == lifted(
                        self.rows(),
                        g,
                        self.ctx().moduli(),
                        self.ctx().n(),
                    ),
                None => exists|i: int|
                    0 <= i < self.ctx().moduli().len() && no_inverse(
                        seq_product(self.ctx().moduli()) / (#[trigger] self.ctx().moduli()[i]),
                        self.ctx().moduli()[i],
                    ),
            },
    {
        proof {
            use_type_invariant(self);
        }
        let n: usize = self.context.degree();
        let count: usize = self.context.moduli_count();
        let g = match self.context.g() {
            Some(g) => g,
            None => {
                return None;
            },
        };
        let product = self.context.modulus();
        let rows = self.to_rows();
        let ghost gs = nat_values(g@);
        let ghost target = lifted(self.rows(), gs, self.ctx().moduli(), n as nat);
        let mut sums: Vec<BigNat> = Vec::with_capacity(n);
        let mut j: usize = 0;
        while j < n
            invariant
                j <= n,
                self.wf(),
                n == self.ctx().n(),
                count == self.ctx().moduli().len(),
                g@.len() == count,
                gs == nat_values(g@),
                product@ == seq_product(self.ctx().moduli()),
                product@ >= 1,
                rows@.len() == count,
                forall|i: int| 0 <= i < count ==> (#[trigger] rows@[i])@ == self.rows()[i],
                target == lifted(self.rows(), gs, self.ctx().moduli(), n as nat),
                sums@.len() == j,
                forall|k: int| 0 <= k < j ==> (#[trigger] sums@[k])@ == target[k],
            decreases n - j,
        {
            let mut acc = BigNat::from_u64(0);
            let mut i: usize = 0;
            while i < count
                invariant
                    i <= count,
                    j < n,
                    self.wf(),
                    n == self.ctx().n(),
                    count == self.ctx().moduli().len(),
                    g@.len() == count,
                    gs == nat_values(g@),
                    rows@.len() == count,
                    forall|i: int| 0 <= i < count ==> (#[trigger] rows@[i])@ == self.rows()[i],
                    acc@ == crt_sum(self.rows(), gs, j as int, i as nat),
                decreases count - i,
            {
                assert(rows@[i as int]@ == self.rows()[i as int]);
                let term = BigNat::from_u64(rows[i][j]).mul(&g[i]);
                acc = acc.add(&term);
                i += 1;
            }
            sums.push(acc.rem(&product));
            j += 1;
        }
        proof {
            assert(nat_values(sums@) =~= target);
            assert(is_generators(gs, self.ctx().moduli()));
        }
        Some(sums)
    }

    /// The residue matrix of the polynomial.
    pub fn coefficients(&self) -> (m: &Matrix)
        ensures
            m@ == self.rows(),
            self.wf(),
    {
        proof {
            use_type_invariant(self);
        }
        &self.coefficients
    }
}

} // verus!
