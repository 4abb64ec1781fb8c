//! Key switching: from a polynomial under one secret to a pair of
//! polynomials under another, digit by digit, with one key element for each
//! modulus of the input.

use crate::bigint::BigNat;
use crate::modulus::{no_inverse, seq_product};
use crate::parameters::Error;
use crate::poly::{
    add_rows, error_values, forward_rows, is_generator, lift_i64_rows, lift_nat_rows, lift_rows,
    mul_rows, same_chain, share, sub_rows, uniform_rows, Poly, PolyContext, Representation,
};
use crate::sampling::{draw_seed, draw_words, lemma_error_bound, seeded_words, words_from_seed};
use crate::secret_key::SecretKey;
use rand_chacha::ChaCha8Rng;
use std::sync::Arc;
use vstd::prelude::*;

verus! {

/// The bound of the errors that key generation adds.
pub const ERROR_BOUND: u32 = 10;

/// The number of words that the residues of one polynomial take.
pub open spec fn words_per_poly(ctx: PolyContext) -> nat {
    2 * (ctx.moduli().len() * ctx.n())
}

/// The residues of polynomial `k` among those that the seed gives.
pub open spec fn seeded_rows(seed: Seq<u8>, count: nat, ctx: PolyContext, k: int) -> Seq<Seq<u64>> {
    uniform_rows(
        seeded_words(seed, count * words_per_poly(ctx)).subrange(
            k * words_per_poly(ctx),
            k * words_per_poly(ctx) + words_per_poly(ctx),
        ),
        ctx.moduli(),
        ctx.n(),
    )
}

/// The residues of the secret key in the context, as values at the roots.
pub open spec fn secret_rows(sk: Seq<i64>, ctx: PolyContext) -> Seq<Seq<u64>> {
    forward_rows(lift_i64_rows(sk, ctx.moduli()), ctx)
}

/// The residues of the constant polynomial `g`.
pub open spec fn constant_rows(g: nat, ctx: PolyContext) -> Seq<Seq<u64>> {
    lift_nat_rows(Seq::new(ctx.n(), |j: int| g), ctx.moduli())
}

/// The first component of a key element: `e + g * a - c1 * s`.
pub open spec fn c0_rows(
    g: nat,
    a: Seq<Seq<u64>>,
    c1: Seq<Seq<u64>>,
    s: Seq<Seq<u64>>,
    e: Seq<Seq<u64>>,
    ctx: PolyContext,
) -> Seq<Seq<u64>> {
    sub_rows(
        add_rows(e, mul_rows(constant_rows(g, ctx), a, ctx.moduli()), ctx.moduli()),
        mul_rows(c1, s, ctx.moduli()),
        ctx.moduli(),
    )
}

/// The sum over the first `upto` indices of `keys[i] * terms[i]`.
pub open spec fn accumulated_rows(
    keys: Seq<Seq<Seq<u64>>>,
    terms: Seq<Seq<Seq<u64>>>,
    moduli: Seq<int>,
    upto: nat,
) -> Seq<Seq<u64>>
    decreases upto,
{
    if upto == 0 {
        Seq::empty()
    } else if upto == 1 {
        mul_rows(keys[0], terms[0], moduli)
    } else {
        add_rows(
            accumulated_rows(keys, terms, moduli, (upto - 1) as nat),
            mul_rows(keys[upto - 1], terms[upto - 1], moduli),
            moduli,
        )
    }
}

/// The residues of every polynomial of `polys`.
pub open spec fn rows_of(polys: Seq<Poly>) -> Seq<Seq<Seq<u64>>> {
    Seq::new(polys.len(), |i: int| polys[i].rows())
}

/// Every polynomial of `polys` lives in `ctx`, as values at the roots.
pub open spec fn all_in(polys: Seq<Poly>, ctx: PolyContext) -> bool {
    forall|i: int|
        0 <= i < polys.len() ==> {
            &&& (#[trigger] polys[i]).wf()
            &&& polys[i].ctx() == ctx
            &&& polys[i].repr() == Representation::Evaluation
        }
}

/// The sum of the products `keys[i] * terms[i]`.
pub fn accumulate(keys: &Vec<Poly>, terms: &Vec<Poly>) -> (r: Poly)
    requires
        keys@.len() == terms@.len(),
        keys@.len() >= 1,
        all_in(keys@, keys@[0].ctx()),
        all_in(terms@, keys@[0].ctx()),
    ensures
        r.wf(),
        r.ctx() == keys@[0].ctx(),
        r.repr() == Representation::Evaluation,
        r.rows() == accumulated_rows(
            rows_of(keys@),
            rows_of(terms@),
            keys@[0].ctx().moduli(),
            keys@.len(),
        ),
{
    let count: usize = keys.len();
    let ghost ctx = keys@[0].ctx();
    let mut r = keys[0].mul(&terms[0]);
    let mut i: usize = 1;
    while i < count
        invariant
            1 <= i <= count,
            count == keys@.len(),
            count == terms@.len(),
            ctx == keys@[0].ctx(),
            all_in(keys@, ctx),
            all_in(terms@, ctx),
            r.wf(),
            r.ctx() == ctx,
            r.repr() == Representation::Evaluation,
            r.rows() == accumulated_rows(rows_of(keys@), rows_of(terms@), ctx.moduli(), i as nat),
        decreases count - i,
    {
        let product = keys[i].mul(&terms[i]);
        r.add_assign(&product);
        i += 1;
    }
    r
}

/// The polynomials that the seed gives: `count` polynomials of the context,
/// as values at the roots.
pub fn seeded_polys(count: usize, ctx: &Arc<PolyContext>, seed: &[u8; 32]) -> (r: Vec<Poly>)
    requires
        count * words_per_poly(**ctx) <= usize::MAX,
    ensures
        r@.len() == count,
        all_in(r@, **ctx),
        forall|k: int| 0 <= k < count ==> (#[trigger] r@[k]).rows() == seeded_rows(seed@, count as nat, **ctx, k),
{
    let n: usize = ctx.degree();
    let l: usize = ctx.moduli_count();
    proof {
        ctx.lemma_wf();
    }
    let size: usize = 2 * (l * n);
    let words = words_from_seed(seed, count * size);
    let mut r: Vec<Poly> = Vec::with_capacity(count);
    let mut k: usize = 0;
    while k < count
        invariant
            k <= count,
            size == words_per_poly(**ctx),
            count * size <= usize::MAX,
            words@ == seeded_words(seed@, (count * size) as nat),
            words@.len() == count * size,
            r@.len() == k,
            all_in(r@, **ctx),
            forall|j: int| 0 <= j < k ==> (#[trigger] r@[j]).rows() == seeded_rows(seed@, count as nat, **ctx, j),
        decreases count - k,
    {
        proof {
            assert(k * size + size <= count * size) by (nonlinear_arith)
                requires
                    k + 1 <= count,
                    size >= 0,
            ;
        }
        let p = Poly::from_words(&words, k * size, ctx, &Representation::Evaluation);
        r.push(p);
        k += 1;
    }
    r
}

/// A key for the digit-by-digit variant: one pair of polynomials for each
/// modulus of the ciphertext chain.
pub struct BVKeySwitchingKey {
    c0s: Vec<Poly>,
    c1s: Vec<Poly>,
    seed: [u8; 32],
    ciphertext_ctx: Arc<PolyContext>,
    ksk_ctx: Arc<PolyContext>,
}

/// The first components of a key are built on the generators of the
/// ciphertext chain, the polynomial `a`, the second components, the secret and
/// the errors that `words` give.
pub open spec fn is_bv_c0(
    c0: Poly,
    i: int,
    ciphertext_ctx: PolyContext,
    ksk_ctx: PolyContext,
    a: Seq<Seq<u64>>,
    c1: Seq<Seq<u64>>,
    sk: Seq<i64>,
    e: Seq<i64>,
) -> bool {
    exists|g: nat| #[trigger]
        is_generator(g, seq_product(ciphertext_ctx.moduli()), ciphertext_ctx.moduli()[i])
            && c0.rows() == c0_rows(
            g,
            a,
            c1,
            secret_rows(sk, ksk_ctx),
            forward_rows(lift_i64_rows(e, ksk_ctx.moduli()), ksk_ctx),
            ksk_ctx,
        )
}

/// The errors of element `i`: one for each word of block `i` of `words`.
pub open spec fn error_block(words: Seq<u64>, n: nat, i: int) -> Seq<i64> {
    error_values(words.subrange(i * n, i * n + n), ERROR_BOUND as nat)
}

/// Every entry of `e` is within the bound of the errors.
pub open spec fn is_small(e: Seq<i64>) -> bool {
    forall|j: int| 0 <= j < e.len() ==> -(ERROR_BOUND as int) <= (#[trigger] e[j]) <= ERROR_BOUND
}

/// Element `i` of the first components is built with some small errors.
pub open spec fn is_bv_element(
    c0: Poly,
    i: int,
    ciphertext_ctx: PolyContext,
    ksk_ctx: PolyContext,
    a: Seq<Seq<u64>>,
    c1: Seq<Seq<u64>>,
    sk: Seq<i64>,
) -> bool {
    exists|e: Seq<i64>|
        e.len() == ksk_ctx.n() && is_small(e) && #[trigger] is_bv_c0(
            c0,
            i,
            ciphertext_ctx,
            ksk_ctx,
            a,
            c1,
            sk,
            e,
        )
}

/// The errors that words give are small.
pub proof fn lemma_block_small(words: Seq<u64>, n: nat, i: int)
    requires
        0 <= i,
        i * n + n <= words.len(),
    ensures
        error_block(words, n, i).len() == n,
        is_small(error_block(words, n, i)),
{
    let e = error_block(words, n, i);
    assert(i * n >= 0) by (nonlinear_arith)
        requires
            i >= 0,
            n >= 0,
    ;
    assert forall|j: int| 0 <= j < e.len() implies -(ERROR_BOUND as int) <= (#[trigger] e[j])
        <= ERROR_BOUND by {
        lemma_error_bound(words.subrange(i * n, i * n + n)[j], ERROR_BOUND as nat);
    }
}

/// The digits of a polynomial for the digit-by-digit variant: every row,
/// read as a polynomial of the key's context.
pub open spec fn bv_terms(x: Seq<Seq<u64>>, ctx: PolyContext) -> Seq<Seq<Seq<u64>>> {
    Seq::new(x.len(), |i: int| forward_rows(lift_rows(x[i], ctx.moduli()), ctx))
}

impl BVKeySwitchingKey {
    #[verifier::type_invariant]
    spec fn type_inv(self) -> bool {
        self.wf()
    }

    /// The first components.
    pub closed spec fn c0_polys(&self) -> Seq<Poly> {
        self.c0s@
    }

    /// The second components.
    pub closed spec fn c1_polys(&self) -> Seq<Poly> {
        self.c1s@
    }

    /// The seed of the second components.
    pub closed spec fn seed_bytes(&self) -> Seq<u8> {
        self.seed@
    }

    /// The context of the polynomials to switch.
    pub closed spec fn source(&self) -> PolyContext {
        *self.ciphertext_ctx
    }

    /// The context of the key.
    pub closed spec fn target(&self) -> PolyContext {
        *self.ksk_ctx
    }

    /// The key holds one pair for each modulus of the source, all in the
    /// key's context as values at the roots.
    pub open spec fn wf(&self) -> bool {
        &&& self.source().wf()
        &&& self.target().wf()
        &&& self.source().n() == self.target().n()
        &&& self.c0_polys().len() == self.source().moduli().len()
        &&& self.c1_polys().len() == self.source().moduli().len()
        &&& all_in(self.c0_polys(), self.target())
        &&& all_in(self.c1_polys(), self.target())
    }

    /// The second components of a key: `count` polynomials that the seed gives.
    pub fn generate_c1(count: usize, ksk_ctx: &Arc<PolyContext>, seed: [u8; 32]) -> (r: Vec<Poly>)
        requires
            count * words_per_poly(**ksk_ctx) <= usize::MAX,
        ensures
            r@.len() == count,
            all_in(r@, **ksk_ctx),
            forall|k: int|
                0 <= k < count ==> (#[trigger] r@[k]).rows() == seeded_rows(
                    seed@,
                    count as nat,
                    **ksk_ctx,
                    k,
                ),
    {
        seeded_polys(count, ksk_ctx, &seed)
    }

    /// The first components of a key, with the errors that `words` give:
    /// element `i` is `e_i + g_i * poly - c1_i * sk`, where `g_i` is the
    /// generator of modulus `i` of the ciphertext chain. Fails when a
    /// generator does not exist.
    pub fn generate_c0_from_words(
        ciphertext_ctx: &Arc<PolyContext>,
        ksk_ctx: &Arc<PolyContext>,
        poly: &Poly,
        c1s: &Vec<Poly>,
        sk: &SecretKey,
        words: &Vec<u64>,
    ) -> (r: Result<Vec<Poly>, Error>)
        requires
            poly.ctx() == **ksk_ctx,
            poly.repr() == Representation::Evaluation,
            c1s@.len() == ciphertext_ctx.moduli().len(),
            all_in(c1s@, **ksk_ctx),
            sk.values().len() == ksk_ctx.n(),
            words@.len() == c1s@.len() * ksk_ctx.n(),
        ensures
            match r {
                Ok(c0s) => {
                    &&& c0s@.len() == c1s@.len()
                    &&& all_in(c0s@, **ksk_ctx)
                    &&& forall|i: int|
                        0 <= i < c0s@.len() ==> is_bv_c0(
                            #[trigger] c0s@[i],
                            i,
                            **ciphertext_ctx,
                            **ksk_ctx,
                            poly.rows(),
                            c1s@[i].rows(),
                            sk.values(),
                            error_block(words@, ksk_ctx.n(), i),
                        )
                },
                Err(e) => e == Error::NonInvertible && exists|i: int|
                    0 <= i < ciphertext_ctx.moduli().len() && no_inverse(
                        seq_product(ciphertext_ctx.moduli()) / (
                        #[trigger] ciphertext_ctx.moduli()[i]),
                        ciphertext_ctx.moduli()[i],
                    ),
            },
    {
        let n: usize = ksk_ctx.degree();
        let count: usize = c1s.len();
        let total: usize = words.len();
        proof {
            use_type_invariant(poly);
        }
        let g = match ciphertext_ctx.g() {
            Some(g) => g,
            None => {
                return Err(Error::NonInvertible);
            },
        };
        let mut s = Poly::try_convert_from_i64(
            sk.coefficients(),
            ksk_ctx,
            &Representation::Coefficient,
        );
        s.change_representation(Representation::Evaluation);
        let mut c0s: Vec<Poly> = Vec::with_capacity(count);
        let mut i: usize = 0;
        while i < count
            invariant
                i <= count,
                count == c1s@.len(),
                count == ciphertext_ctx.moduli().len(),
                n == ksk_ctx.n(),
                g@.len() == count,
                forall|k: int|
                    0 <= k < count ==> is_generator(
                        (#[trigger] g@[k])@,
                        seq_product(ciphertext_ctx.moduli()),
                        ciphertext_ctx.moduli()[k],
                    ),
                poly.wf(),
                poly.ctx() == **ksk_ctx,
                poly.repr() == Representation::Evaluation,
                all_in(c1s@, **ksk_ctx),
                s.wf(),
                s.ctx() == **ksk_ctx,
                s.repr() == Representation::Evaluation,
                s.rows() == secret_rows(sk.values(), **ksk_ctx),
                words@.len() == count * n,
                total == words@.len(),
                c0s@.len() == i,
                all_in(c0s@, **ksk_ctx),
                forall|k: int|
                    0 <= k < i ==> is_bv_c0(
                        #[trigger] c0s@[k],
                        k,
                        **ciphertext_ctx,
                        **ksk_ctx,
                        poly.rows(),
                        c1s@[k].rows(),
                        sk.values(),
                        error_block(words@, n as nat, k),
                    ),
            decreases count - i,
        {
            // g_i * poly
            let mut constant: Vec<BigNat> = Vec::with_capacity(n);
            let mut j: usize = 0;
            while j < n
                invariant
                    j <= n,
                    i < count,
                    g@.len() == count,
                    constant@.len() == j,
                    forall|k: int| 0 <= k < j ==> (#[trigger] constant@[k])@ == g@[i as int]@,
                decreases n - j,
            {
                constant.push(g[i].clone());
                j += 1;
            }
            let mut c0 = Poly::try_convert_from_biguint(
                &constant,
                ksk_ctx,
                &Representation::Evaluation,
            );
            proof {
                assert(constant@.map_values(|v: BigNat| v@) =~= Seq::new(
                    n as nat,
                    |j: int| g@[i as int]@,
                ));
            }
            c0.mul_assign(poly);
            // the error
            proof {
                assert(i * n + n <= count * n) by (nonlinear_arith)
                    requires
                        i + 1 <= count,
                        n >= 0,
                ;
            }
            let block = block_of(words, i * n, n);
            let mut e = Poly::from_error_words(
                &block,
                ERROR_BOUND,
                ksk_ctx,
                &Representation::Evaluation,
            );
            e.add_assign(&c0);
            let product = c1s[i].mul(&s);
            e.sub_assign(&product);
            proof {
                assert(is_generator(
                    g@[i as int]@,
                    seq_product(ciphertext_ctx.moduli()),
                    ciphertext_ctx.moduli()[i as int],
                ));
                assert(is_bv_c0(
                    e,
                    i as int,
                    **ciphertext_ctx,
                    **ksk_ctx,
                    poly.rows(),
                    c1s@[i as int].rows(),
                    sk.values(),
                    error_block(words@, n as nat, i as int),
                ));
            }
            c0s.push(e);
            i += 1;
        }
        Ok(c0s)
    }

    /// The first components of a key, with errors drawn from `rng`.
    pub fn generate_c0(
        ciphertext_ctx: &Arc<PolyContext>,
        ksk_ctx: &Arc<PolyContext>,
        poly: &Poly,
        c1s: &Vec<Poly>,
        sk: &SecretKey,
        rng: &mut ChaCha8Rng,
    ) -> (r: Result<Vec<Poly>, Error>)
        requires
            poly.ctx() == **ksk_ctx,
            poly.repr() == Representation::Evaluation,
            c1s@.len() == ciphertext_ctx.moduli().len(),
            all_in(c1s@, **ksk_ctx),
            sk.values().len() == ksk_ctx.n(),
            c1s@.len() * ksk_ctx.n() <= usize::MAX,
        ensures
            match r {
                Ok(c0s) => {
                    &&& c0s@.len() == c1s@.len()
                    &&& all_in(c0s@, **ksk_ctx)
                    &&& forall|i: int|
                        0 <= i < c0s@.len() ==> is_bv_element(
                            #[trigger] c0s@[i],
                            i,
                            **ciphertext_ctx,
                            **ksk_ctx,
                            poly.rows(),
                            c1s@[i].rows(),
                            sk.values(),
                        )
                },
                Err(e) => e == Error::NonInvertible && exists|i: int|
                    0 <= i < ciphertext_ctx.moduli().len() && no_inverse(
                        seq_product(ciphertext_ctx.moduli()) / (
                        #[trigger] ciphertext_ctx.moduli()[i]),
                        ciphertext_ctx.moduli()[i],
                    ),
            },
    {
        let n: usize = ksk_ctx.degree();
        let words = draw_words(rng, c1s.len() * n);
        let r = Self::generate_c0_from_words(ciphertext_ctx, ksk_ctx, poly, c1s, sk, &words);
        proof {
            if r is Ok {
                let c0s = r->Ok_0;
                assert forall|i: int| 0 <= i < c0s@.len() implies is_bv_element(
                    #[trigger] c0s@[i],
                    i,
                    **ciphertext_ctx,
                    **ksk_ctx,
                    poly.rows(),
                    c1s@[i].rows(),
                    sk.values(),
                ) by {
                    assert(i * n + n <= c1s@.len() * n) by (nonlinear_arith)
                        requires
                            i + 1 <= c1s@.len(),
                            n >= 0,
                    ;
                    lemma_block_small(words@, n as nat, i);
                    assert(is_bv_c0(
                        c0s@[i],
                        i,
                        **ciphertext_ctx,
                        **ksk_ctx,
                        poly.rows(),
                        c1s@[i].rows(),
                        sk.values(),
                        error_block(words@, n as nat, i),
                    ));
                }
            }
        }
        r
    }

    /// A key that switches polynomials of `ciphertext_ctx` to pairs under the
    /// secret `sk`, for the polynomial `poly`: the second components come
    /// from a fresh seed, the first are `e_i + g_i * poly - c1_i * sk` with
    /// small errors `e_i`. Fails when a generator of the ciphertext chain does
    /// not exist.
    pub fn new(poly: &Poly, sk: &SecretKey, ciphertext_ctx: &Arc<PolyContext>, rng: &mut ChaCha8Rng) -> (r:
        Result<BVKeySwitchingKey, Error>)
        requires
            poly.repr() == Representation::Evaluation,
            sk.values().len() == poly.ctx().n(),
            ciphertext_ctx.n() == poly.ctx().n(),
            ciphertext_ctx.moduli().len() * words_per_poly(poly.ctx()) <= usize::MAX,
        ensures
            match r {
                Ok(key) => {
                    &&& key.wf()
                    &&& key.source() == **ciphertext_ctx
                    &&& key.target() == poly.ctx()
                    &&& forall|k: int|
                        0 <= k < key.c1_polys().len() ==> (#[trigger] key.c1_polys()[k]).rows()
                            == seeded_rows(
                            key.seed_bytes(),
                            key.c1_polys().len(),
                            poly.ctx(),
                            k,
                        )
                    &&& forall|i: int|
                        0 <= i < key.c0_polys().len() ==> is_bv_element(
                            #[trigger] key.c0_polys()[i],
                            i,
                            **ciphertext_ctx,
                            poly.ctx(),
                            poly.rows(),
                            key.c1_polys()[i].rows(),
                            sk.values(),
                        )
                },
                Err(e) => e == Error::NonInvertible && exists|i: int|
                    0 <= i < ciphertext_ctx.moduli().len() && no_inverse(
                        seq_product(ciphertext_ctx.moduli()) / (
                        #[trigger] ciphertext_ctx.moduli()[i]),
                        ciphertext_ctx.moduli()[i],
                    ),
            },
    {
        let ksk_ctx = poly.context();
        let count: usize = ciphertext_ctx.moduli_count();
        let n: usize = ksk_ctx.degree();
        proof {
            ksk_ctx.lemma_wf();
            assert(count * n <= count * (2 * (ksk_ctx.moduli().len() * n))) by (nonlinear_arith)
                requires
                    ksk_ctx.moduli().len() >= 1,
                    count >= 0,
                    n >= 0,
            ;
        }
        let seed = draw_seed(rng);
        let c1s = Self::generate_c1(count, ksk_ctx, seed);
        let c0s = match Self::generate_c0(ciphertext_ctx, ksk_ctx, poly, &c1s, sk, rng) {
            Ok(c0s) => c0s,
            Err(e) => {
                return Err(e);
            },
        };
        Ok(
            BVKeySwitchingKey {
                c0s,
                c1s,
                seed,
                ciphertext_ctx: share(ciphertext_ctx),
                ksk_ctx: share(ksk_ctx),
            },
        )
    }

    /// Switches the polynomial: every row of residues is read as a
    /// polynomial of the key's context and multiplied into the pair that
    /// belongs to its modulus. Gives the two sums, first components first.
    pub fn switch(&self, poly: &Poly) -> (r: Vec<Poly>)
        requires
            poly.repr() == Representation::Coefficient,
            same_chain(poly.ctx(), self.source()),
        ensures
            r@.len() == 2,
            all_in(r@, self.target()),
            r@[0].rows() == accumulated_rows(
                rows_of(self.c0_polys()),
                bv_terms(poly.rows(), self.target()),
                self.target().moduli(),
                self.c0_polys().len(),
            ),
            r@[1].rows() == accumulated_rows(
                rows_of(self.c1_polys()),
                bv_terms(poly.rows(), self.target()),
                self.target().moduli(),
                self.c1_polys().len(),
            ),
    {
        proof {
            use_type_invariant(self);
        }
        let count: usize = self.c0s.len();
        proof {
            use_type_invariant(poly);
        }
        let mut terms: Vec<Poly> = Vec::with_capacity(count);
        let mut i: usize = 0;
        while i < count
            invariant
                i <= count,
                self.wf(),
                poly.wf(),
                same_chain(poly.ctx(), self.source()),
                count == self.source().moduli().len(),
                terms@.len() == i,
                all_in(terms@, self.target()),
                forall|k: int|
                    0 <= k < i ==> (#[trigger] terms@[k]).rows() == bv_terms(
                        poly.rows(),
                        self.target(),
                    )[k],
            decreases count - i,
        {
            let row = poly.row(i);
            let mut p = Poly::try_convert_from_u64(
                row.as_slice(),
                &self.ksk_ctx,
                &Representation::Coefficient,
            );
            p.change_representation(Representation::Evaluation);
            terms.push(p);
            i += 1;
        }
        proof {
            assert(rows_of(terms@) =~= bv_terms(poly.rows(), self.target()));
            self.source().lemma_wf();
            assert(self.c0s@[0].ctx() == self.target());
            assert(self.c1s@[0].ctx() == self.target());
        }
        let c0_out = accumulate(&self.c0s, &terms);
        let c1_out = accumulate(&self.c1s, &terms);
        let mut r: Vec<Poly> = Vec::with_capacity(2);
        r.push(c0_out);
        r.push(c1_out);
        r
    }

    /// The context of the polynomials to switch.
    pub fn ciphertext_ctx(&self) -> (c: &Arc<PolyContext>)
        ensures
            **c == self.source(),
            self.wf(),
    {
        proof {
            use_type_invariant(self);
        }
        &self.ciphertext_ctx
    }

    /// The context of the key.
    pub fn ksk_ctx(&self) -> (c: &Arc<PolyContext>)
        ensures
            **c == self.target(),
            self.wf(),
    {
        proof {
            use_type_invariant(self);
        }
        &self.ksk_ctx
    }

    /// The seed from which the second components can be made again.
    pub fn seed(&self) -> (seed: [u8; 32])
        ensures
            seed@ == self.seed_bytes(),
    {
        self.seed
    }

    /// The first components.
    pub fn c0s(&self) -> (c: &Vec<Poly>)
        ensures
            c@ == self.c0_polys(),
            self.wf(),
    {
        proof {
            use_type_invariant(self);
        }
        &self.c0s
    }

    /// The second components.
    pub fn c1s(&self) -> (c: &Vec<Poly>)
        ensures
            c@ == self.c1_polys(),
            self.wf(),
    {
        proof {
            use_type_invariant(self);
        }
        &self.c1s
    }
}

/// The `len` words of `words` from position `start` on.
pub fn block_of(words: &Vec<u64>, start: usize, len: usize) -> (r: Vec<u64>)
    requires
        start + len <= words@.len(),
    ensures
        r@ == words@.subrange(start as int, start + len),
{
    let total: usize = words.len();
    let mut r: Vec<u64> = Vec::with_capacity(len);
    let mut j: usize = 0;
    while j < len
        invariant
            j <= len,
            total == words@.len(),
            start + len <= words@.len(),
            r@.len() == j,
            forall|k: int| 0 <= k < j ==> (#[trigger] r@[k]) == words@[start + k],
        decreases len - j,
    {
        r.push(words[start + j]);
        j += 1;
    }
    proof {
        assert(r@ =~= words@.subrange(start as int, start + len));
    }
    r
}

} // verus!
