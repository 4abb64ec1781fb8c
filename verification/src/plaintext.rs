//! Plaintexts: messages encoded as polynomials modulo the plaintext modulus,
//! with the scaled forms that ciphertext operations consume.

use crate::modulus::{
    as_ints, centered, lemma_product_multiple, reduce_seq, reduced, scale_seq, seq_product,
};
use crate::ntt_laws::lemma_forward_backward;
use crate::parameters::{
    is_neg_inverse, is_permutation, kind_moduli, level_moduli, BfvParameters, PolyType,
};
use crate::poly::{
    converted_rows, forward_rows, lift_rows, matrix_from_rows, Poly, Representation,
};
use vstd::arithmetic::div_mod::*;
use vstd::arithmetic::mul::*;
use vstd::prelude::*;
use vstd::slice::slice_to_vec;

verus! {

/// How a message is laid out in a plaintext.
#[derive(Clone, Copy, PartialEq, Eq, Structural, Debug)]
pub enum EncodingType {
    /// Every value goes to a slot.
    Simd,
    /// Every value is a coefficient.
    Poly,
}

/// The polynomials that a plaintext keeps ready.
#[derive(Clone, Copy, PartialEq, Eq, Structural, Debug)]
pub enum PolyCache {
    /// For multiplications: the message in the given chain.
    Mul(PolyType),
    /// For additions and subtractions: the scaled message in the ciphertext chain.
    AddSub(Representation),
    /// Both.
    All(PolyType, Representation),
    /// Neither, as encryption asks.
    NoCache,
}

/// How to encode: layout, cached polynomials and level.
#[derive(Clone, Copy, PartialEq, Eq, Structural, Debug)]
pub struct Encoding {
    /// The layout of the message.
    pub encoding_type: EncodingType,
    /// The polynomials to keep ready.
    pub poly_cache: PolyCache,
    /// The level, which decides the moduli of the cached polynomials.
    pub level: usize,
}

impl Encoding {
    /// Slot encoding at `level` with the given cache.
    pub fn simd(level: usize, poly_cache: PolyCache) -> (e: Encoding)
        ensures
            e == (Encoding { encoding_type: EncodingType::Simd, poly_cache, level }),
    {
        Encoding { encoding_type: EncodingType::Simd, poly_cache, level }
    }

    /// Coefficient encoding at `level` with the given cache.
    pub fn poly(level: usize, poly_cache: PolyCache) -> (e: Encoding)
        ensures
            e == (Encoding { encoding_type: EncodingType::Poly, poly_cache, level }),
    {
        Encoding { encoding_type: EncodingType::Poly, poly_cache, level }
    }
}

impl Default for Encoding {
    /// Slot encoding at level zero without cache.
    fn default() -> (e: Encoding)
        ensures
            e == (Encoding {
                encoding_type: EncodingType::Simd,
                poly_cache: PolyCache::NoCache,
                level: 0,
            }),
    {
        Encoding { encoding_type: EncodingType::Simd, poly_cache: PolyCache::NoCache, level: 0 }
    }
}

/// The message `m` laid out over `n` positions: value `i` at position
/// `map[i]`, zero where no value goes.
pub open spec fn scattered(m: Seq<u64>, map: Seq<usize>, n: nat) -> Seq<u64> {
    Seq::new(
        n,
        |j: int|
            if exists|i: int| 0 <= i < m.len() && map[i] == j {
                m[choose|i: int| 0 <= i < m.len() && map[i] == j]
            } else {
                0u64
            },
    )
}

/// The message `m` followed by zeros up to `n` values.
pub open spec fn padded(m: Seq<u64>, n: nat) -> Seq<u64> {
    Seq::new(
        n,
        |j: int|
            if j < m.len() {
                m[j]
            } else {
                0u64
            },
    )
}

/// The values that a plaintext holds for the message `m`.
pub open spec fn encoded_values(m: Seq<u64>, params: BfvParameters, kind: EncodingType) -> Seq<
    u64,
> {
    match kind {
        EncodingType::Simd => params.t_ntt().backward_of(
            reduce_seq(scattered(m, params.index_map(), params.n()), params.t()),
        ),
        EncodingType::Poly => reduce_seq(padded(m, params.n()), params.t()),
    }
}

/// The message that the values `v` of a plaintext stand for.
pub open spec fn decoded_values(v: Seq<u64>, params: BfvParameters, kind: EncodingType) -> Seq<
    u64,
> {
    match kind {
        EncodingType::Simd => Seq::new(
            params.n(),
            |i: int| params.t_ntt().forward_of(v)[params.index_map()[i] as int],
        ),
        EncodingType::Poly => v,
    }
}

/// The scaled residue of the plaintext value `x` under the ciphertext modulus
/// `q`: the centred residue of `x * product` modulo `t`, times the inverse of
/// minus `t`.
pub open spec fn scaled_residue(x: u64, product: int, t: int, neg_t_inv: int, q: int) -> u64 {
    (((centered(x * product, t) % q) * neg_t_inv) % q) as u64
}

/// The scaled form of the plaintext values `v` at `level`, one row for each
/// ciphertext modulus of the level.
pub open spec fn scaled_rows(v: Seq<u64>, params: BfvParameters, level: int) -> Seq<Seq<u64>> {
    Seq::new(
        (params.levels() - level) as nat,
        |i: int|
            Seq::new(
                v.len(),
                |j: int|
                    scaled_residue(
                        v[j],
                        params.level_products()[level] as int,
                        params.t(),
                        params.neg_t_inverses()[i] as int,
                        params.q_moduli()[i] as int,
                    ),
            ),
    )
}

/// Decoding undoes encoding: under either encoding, the message that was
/// encoded comes back, reduced modulo the plaintext modulus and followed by
/// zeros up to the degree.
pub proof fn lemma_decode_encode(m: Seq<u64>, params: BfvParameters, kind: EncodingType)
    requires
        params.wf(),
        m.len() <= params.n(),
    ensures
        decoded_values(encoded_values(m, params, kind), params, kind) == reduce_seq(
            padded(m, params.n()),
            params.t(),
        ),
{
    params.lemma_wf();
    let n = params.n();
    let t = params.t();
    let map = params.index_map();
    match kind {
        EncodingType::Poly => {},
        EncodingType::Simd => {
            let placed = reduce_seq(scattered(m, map, n), t);
            assert(reduced(placed, t)) by {
                assert forall|j: int| 0 <= j < placed.len() implies (#[trigger] placed[j]) < t by {
                    lemma_mod_bound(scattered(m, map, n)[j] as int, t);
                }
            }
            lemma_forward_backward(params.t_ntt(), placed);
            let back = decoded_values(encoded_values(m, params, kind), params, kind);
            let expected = reduce_seq(padded(m, n), t);
            assert forall|i: int| 0 <= i < n implies back[i] == expected[i] by {
                let p = map[i] as int;
                assert(back[i] == placed[p]);
                if exists|k: int| 0 <= k < m.len() && map[k] == p {
                    let k = choose|k: int| 0 <= k < m.len() && map[k] == p;
                    assert(map[k] == map[i]);
                    assert(k == i);
                } else {
                    if i < m.len() {
                        assert(map[i] == p);
                    }
                }
            }
            assert(back =~= expected);
        },
    }
}

/// `a` divided by `t` and rounded to the nearest integer, a half rounded down.
pub open spec fn rounded_quotient(a: int, t: int) -> int {
    (a - centered(a, t)) / t
}

/// `a` divided by `q` and rounded to the nearest integer, a half rounded up.
pub open spec fn rounded_up_quotient(a: int, q: int) -> int {
    (2 * a + q) / (2 * q)
}

/// The rounded quotient times the divisor differs from the dividend by the
/// centred residue.
pub proof fn lemma_rounded_quotient(a: int, t: int)
    requires
        t >= 2,
    ensures
        rounded_quotient(a, t) * t == a - centered(a, t),
        -t < 2 * centered(a, t) <= t,
{
    let r = centered(a, t);
    lemma_fundamental_div_mod(a, t);
    lemma_mod_bound(a, t);
    let d = a / t;
    if 2 * (a % t) > t {
        assert(a - r == t * (d + 1)) by (nonlinear_arith)
            requires
                a == t * d + a % t,
                r == a % t - t,
        ;
        lemma_div_multiples_vanish(d + 1, t);
        lemma_mul_is_commutative(t, d + 1);
    } else {
        assert(a - r == t * d);
        lemma_div_multiples_vanish(d, t);
        lemma_mul_is_commutative(t, d);
    }
}

/// A scaled residue is the residue of the rounded quotient: for a plaintext
/// value `x`, a product `big` of moduli of which `q` is one, and the inverse
/// `neg_t_inv` of minus `t` modulo `q`, the value that `scale_m` computes
/// under `q` is `big * x / t`, rounded, modulo `q`.
pub proof fn lemma_scaled_residue(x: u64, big: int, t: int, neg_t_inv: int, q: int, f: int)
    requires
        t >= 2,
        2 <= q <= u64::MAX,
        big == q * f,
        (t * neg_t_inv + 1) % q == 0,
    ensures
        scaled_residue(x, big % t, t, neg_t_inv, q) == rounded_quotient(big * x, t) % q,
{
    let a = big * x;
    let r = centered(a, t);
    let k = rounded_quotient(a, t);
    lemma_rounded_quotient(a, t);
    // the centred residue of x * (big mod t) is that of x * big
    lemma_mul_mod_noop_general(x as int, big, t);
    lemma_mul_is_commutative(x as int, big);
    assert((x * (big % t)) % t == a % t);
    assert(centered(x * (big % t), t) == r);
    // k is congruent to r * neg_t_inv
    lemma_fundamental_div_mod(t * neg_t_inv + 1, q);
    let e = (t * neg_t_inv + 1) / q;
    let n = neg_t_inv;
    let g = f * x * n;
    assert(k * (t * n + 1) == (k * t) * n + k) by (nonlinear_arith);
    assert((a - r) * n == a * n - r * n) by (nonlinear_arith);
    assert(a * n == q * g) by (nonlinear_arith)
        requires
            a == big * x,
            big == q * f,
            g == f * x * n,
    ;
    assert(k * (q * e) == q * (k * e)) by (nonlinear_arith);
    assert(q * (k * e) - q * g == q * (k * e - g)) by (nonlinear_arith);
    assert(k - r * neg_t_inv == q * (k * e - f * x * neg_t_inv));
    lemma_mod_multiples_vanish(k * e - f * x * neg_t_inv, r * neg_t_inv, q);
    assert(k % q == (r * neg_t_inv) % q);
    lemma_mul_mod_noop_general(r, neg_t_inv, q);
    lemma_mod_bound((r % q) * neg_t_inv, q);
}

/// What `scale_m` computes: under every modulus of the level, the residue of
/// the product of the level's moduli times the plaintext value, divided by the
/// plaintext modulus and rounded.
pub proof fn lemma_scaled_rows(v: Seq<u64>, params: BfvParameters, level: int)
    requires
        params.wf(),
        0 <= level < params.levels(),
    ensures
        forall|i: int, j: int|
            0 <= i < params.levels() - level && 0 <= j < v.len() ==> (#[trigger] scaled_rows(
                v,
                params,
                level,
            )[i][j]) == rounded_quotient(
                seq_product(as_ints(params.q_moduli().take(params.levels() - level))) * v[j],
                params.t(),
            ) % (params.q_moduli()[i] as int),
{
    params.lemma_wf();
    let chain = as_ints(params.q_moduli().take(params.levels() - level));
    let big = seq_product(chain);
    let t = params.t();
    assert forall|i: int, j: int| 0 <= i < params.levels() - level && 0 <= j < v.len() implies (
    #[trigger] scaled_rows(v, params, level)[i][j]) == rounded_quotient(big * v[j], t) % (
    params.q_moduli()[i] as int) by {
        let q = params.q_moduli()[i] as int;
        assert(chain[i] == q);
        lemma_product_multiple(chain, i);
        let f = choose|f: int| seq_product(chain) == #[trigger] (chain[i] * f);
        assert(kind_moduli(params.q_moduli(), params.p_moduli(), PolyType::Q, 0) =~= params.q_moduli());
        assert(params.ctx(PolyType::Q, 0).moduli()[i] == q);
        params.ctx(PolyType::Q, 0).lemma_wf();
        assert(is_neg_inverse(params.neg_t_inverses()[i] as int, t, q));
        lemma_scaled_residue(v[j], big, t, params.neg_t_inverses()[i] as int, q, f);
    }
}

/// Decryption under the zero key gives the message back: the scaled value
/// of `x`, times the plaintext modulus, divided by the product `big` of the
/// moduli and rounded, is `x`. The product must not be below the plaintext
/// modulus.
pub proof fn lemma_scaled_decrypts(x: int, big: int, t: int)
    requires
        2 <= t <= big,
        0 <= x < t,
    ensures
        rounded_up_quotient(t * rounded_quotient(big * x, t), big) == x,
        0 <= rounded_quotient(big * x, t) < big,
{
    let a = big * x;
    let r = centered(a, t);
    let k = rounded_quotient(a, t);
    lemma_rounded_quotient(a, t);
    lemma_mul_is_commutative(k, t);
    assert(2 * (t * k) + big == (2 * big) * x + (big - 2 * r)) by (nonlinear_arith)
        requires
            t * k == a - r,
            a == big * x,
    ;
    lemma_fundamental_div_mod_converse(2 * (t * k) + big, 2 * big, x, big - 2 * r);
    // the scaled value lies below the product
    if x == 0 {
        assert(big * 0 == 0);
        lemma_small_mod(0, t as nat);
    }
    assert(0 <= k < big) by (nonlinear_arith)
        requires
            k * t == big * x - r,
            -t < 2 * r <= t,
            2 <= t <= big,
            0 <= x < t,
            x == 0 ==> r == 0,
    ;
}

/// A message encoded for the scheme.
pub struct Plaintext {
    m: Vec<u64>,
    encoding: Option<Encoding>,
    mul_poly: Option<Poly>,
    add_sub_poly: Option<Poly>,
}

impl Plaintext {
    /// The values of the plaintext.
    pub closed spec fn values(&self) -> Seq<u64> {
        self.m@
    }

    /// The encoding that the plaintext was made with.
    pub closed spec fn encoding_of(&self) -> Option<Encoding> {
        self.encoding
    }

    /// The polynomial kept for multiplications.
    pub closed spec fn cached_mul(&self) -> Option<Poly> {
        self.mul_poly
    }

    /// The polynomial kept for additions and subtractions.
    pub closed spec fn cached_add_sub(&self) -> Option<Poly> {
        self.add_sub_poly
    }

    /// The plaintext holds one residue of the plaintext modulus for each
    /// coefficient.
    pub open spec fn fits(&self, params: BfvParameters) -> bool {
        self.values().len() == params.n() && reduced(self.values(), params.t())
    }

    /// The cached polynomial for multiplications is the one that `cache` asks
    /// of the values `v` at `level`.
    pub open spec fn mul_cache_is(
        cached: Option<Poly>,
        v: Seq<u64>,
        params: BfvParameters,
        cache: PolyCache,
        level: int,
    ) -> bool {
        match cache {
            PolyCache::Mul(kind) | PolyCache::All(kind, _) => {
                &&& cached is Some
                &&& cached->0.wf()
                &&& cached->0.ctx() == params.ctx(kind, level)
                &&& cached->0.repr() == Representation::Evaluation
                &&& cached->0.rows() == forward_rows(
                    lift_rows(v, params.ctx(kind, level).moduli()),
                    params.ctx(kind, level),
                )
            },
            _ => cached is None,
        }
    }

    /// The cached polynomial for additions is the one that `cache` asks of
    /// the values `v` at `level`.
    pub open spec fn add_sub_cache_is(
        cached: Option<Poly>,
        v: Seq<u64>,
        params: BfvParameters,
        cache: PolyCache,
        level: int,
    ) -> bool {
        match cache {
            PolyCache::AddSub(representation) | PolyCache::All(_, representation) => {
                &&& cached is Some
                &&& cached->0.wf()
                &&& cached->0.ctx() == params.ctx(PolyType::Q, level)
                &&& cached->0.repr() == representation
                &&& cached->0.rows() == converted_rows(
                    scaled_rows(v, params, level),
                    params.ctx(PolyType::Q, level),
                    Representation::Coefficient,
                    representation,
                )
            },
            _ => cached is None,
        }
    }

    /// Encodes the message `m`: lays it out as the encoding says, reduces it
    /// modulo the plaintext modulus, takes slots to coefficients, and caches
    /// the polynomials that the encoding asks for.
    pub fn encode(m: &[u64], params: &BfvParameters, encoding: Encoding) -> (pt: Plaintext)
        requires
            m@.len() <= params.n(),
            encoding.level < params.levels(),
        ensures
            pt.values() == encoded_values(m@, *params, encoding.encoding_type),
            pt.fits(*params),
            pt.encoding_of() == Some(encoding),
            Self::mul_cache_is(
                pt.cached_mul(),
                pt.values(),
                *params,
                encoding.poly_cache,
                encoding.level as int,
            ),
            Self::add_sub_cache_is(
                pt.cached_add_sub(),
                pt.values(),
                *params,
                encoding.poly_cache,
                encoding.level as int,
            ),
    {
        let n: usize = params.degree();
        let map = params.matrix_reps_index_map();
        let t_op = params.plaintext_modulus_op();
        let mut m1: Vec<u64> = Vec::with_capacity(n);
        let mut j: usize = 0;
        while j < n
            invariant
                j <= n,
                m1@.len() == j,
                forall|k: int| 0 <= k < j ==> (#[trigger] m1@[k]) == 0,
            decreases n - j,
        {
            m1.push(0);
            j += 1;
        }
        let count: usize = m.len();
        let simd: bool = encoding.encoding_type == EncodingType::Simd;
        let mut i: usize = 0;
        while i < count
            invariant
                i <= count,
                count == m@.len(),
                count <= n,
                m1@.len() == n,
                map@.len() == n,
                is_permutation(map@),
                simd ==> forall|k: int| 0 <= k < i ==> (#[trigger] m1@[map@[k] as int]) == m@[k],
                simd ==> forall|p: int|
                    0 <= p < n && (forall|k: int| 0 <= k < i ==> (#[trigger] map@[k]) != p) ==> (
                    #[trigger] m1@[p]) == 0,
                !simd ==> forall|k: int| 0 <= k < i ==> (#[trigger] m1@[k]) == m@[k],
                !simd ==> forall|k: int| i <= k < n ==> (#[trigger] m1@[k]) == 0,
            decreases count - i,
        {
            if simd {
                let ghost before = m1@;
                let target: usize = map[i];
                m1.set(target, m[i]);
                proof {
                    assert forall|k: int| 0 <= k < i + 1 implies (#[trigger] m1@[map@[k] as int])
                        == m@[k] by {
                        if k < i {
                            assert(map@[k] != map@[i as int]);
                            assert(before[map@[k] as int] == m@[k]);
                        }
                    }
                }
            } else {
                m1.set(i, m[i]);
            }
            i += 1;
        }
        proof {
            if simd {
                let target = scattered(m@, map@, n as nat);
                assert forall|p: int| 0 <= p < n implies m1@[p] == target[p] by {
                    if exists|k: int| 0 <= k < m@.len() && map@[k] == p {
                        let k = choose|k: int| 0 <= k < m@.len() && map@[k] == p;
                        assert(m1@[map@[k] as int] == m@[k]);
                    } else {
                        assert(forall|k: int| 0 <= k < i ==> (#[trigger] map@[k]) != p);
                    }
                }
                assert(m1@ =~= target);
            } else {
                assert(m1@ =~= padded(m@, n as nat));
            }
        }
        t_op.reduce_vec(&mut m1);
        if simd {
            params.plaintext_ntt_op().backward(&mut m1);
        }
        let (mul_poly, add_sub_poly) = match encoding.poly_cache {
            PolyCache::Mul(kind) => {
                let p = Self::lift(&m1, params, kind, encoding.level);
                (Some(p), None)
            },
            PolyCache::AddSub(representation) => {
                let p = Plaintext::scale_m(m1.as_slice(), params, &encoding, representation);
                (None, Some(p))
            },
            PolyCache::All(kind, representation) => {
                let p = Self::lift(&m1, params, kind, encoding.level);
                let s = Plaintext::scale_m(m1.as_slice(), params, &encoding, representation);
                (Some(p), Some(s))
            },
            PolyCache::NoCache => (None, None),
        };
        Plaintext { m: m1, encoding: Some(encoding), mul_poly, add_sub_poly }
    }

    /// The values `v` as a polynomial of the chain `kind` at `level`, by its
    /// values at the roots.
    fn lift(v: &Vec<u64>, params: &BfvParameters, kind: PolyType, level: usize) -> (p: Poly)
        requires
            v@.len() == params.n(),
            level < params.levels(),
        ensures
            p.wf(),
            p.ctx() == params.ctx(kind, level as int),
            p.repr() == Representation::Evaluation,
            p.rows() == forward_rows(
                lift_rows(v@, params.ctx(kind, level as int).moduli()),
                params.ctx(kind, level as int),
            ),
    {
        let ctx = params.poly_ctx(&kind, level);
        let mut p = Poly::try_convert_from_u64(v.as_slice(), ctx, &Representation::Coefficient);
        p.change_representation(Representation::Evaluation);
        p
    }

    /// The message that the plaintext stands for under the encoding.
    pub fn decode(&self, encoding: Encoding, params: &BfvParameters) -> (m: Vec<u64>)
        requires
            self.fits(*params),
        ensures
            m@ == decoded_values(self.values(), *params, encoding.encoding_type),
            m@.len() == params.n(),
    {
        let n: usize = params.degree();
        let mut m1 = self.m.clone();
        match encoding.encoding_type {
            EncodingType::Poly => m1,
            EncodingType::Simd => {
                let map = params.matrix_reps_index_map();
                params.plaintext_ntt_op().forward(&mut m1);
                let mut m: Vec<u64> = Vec::with_capacity(n);
                let mut i: usize = 0;
                while i < n
                    invariant
                        i <= n,
                        n == params.n(),
                        m1@.len() == n,
                        map@.len() == n,
                        map@ == params.index_map(),
                        is_permutation(map@),
                        m1@ == params.t_ntt().forward_of(self.values()),
                        m@.len() == i,
                        forall|k: int| 0 <= k < i ==> (#[trigger] m@[k]) == m1@[map@[k] as int],
                    decreases n - i,
                {
                    m.push(m1[map[i]]);
                    i += 1;
                }
                proof {
                    assert(m@ =~= decoded_values(self.values(), *params, EncodingType::Simd));
                }
                m
            },
        }
    }

    /// The plaintext values scaled up to the ciphertext modulus of the
    /// encoding's level: the product of the level's moduli times the
    /// value, divided by the plaintext modulus and rounded, under every
    /// modulus of the level.
    pub fn scale_m(m: &[u64], params: &BfvParameters, encoding: &Encoding, representation: Representation) -> (p:
        Poly)
        requires
            m@.len() == params.n(),
            reduced(m@, params.t()),
            encoding.level < params.levels(),
        ensures
            p.wf(),
            p.ctx() == params.ctx(PolyType::Q, encoding.level as int),
            p.repr() == representation,
            p.rows() == converted_rows(
                scaled_rows(m@, *params, encoding.level as int),
                params.ctx(PolyType::Q, encoding.level as int),
                Representation::Coefficient,
                representation,
            ),
    {
        let n: usize = params.degree();
        let level: usize = encoding.level;
        let t_op = params.plaintext_modulus_op();
        let product: u64 = params.ql_modt(level);
        let ctx = params.poly_ctx(&PolyType::Q, level);
        let count: usize = ctx.moduli_count();
        let ghost target = scaled_rows(m@, *params, level as int);
        proof {
            params.lemma_wf();
            ctx.lemma_wf();
            assert(level_moduli(params.q_moduli(), Seq::<u64>::empty(), level as int)
                =~= params.q_moduli().take(params.levels() - level));
            assert(count == params.levels() - level);
            lemma_mod_bound(
                crate::modulus::seq_product(
                    as_ints(params.q_moduli().take(params.levels() - level)),
                ),
                params.t(),
            );
        }
        let mut scaled = slice_to_vec(m);
        t_op.scalar_mul_vec(&mut scaled, product);
        let mut rows: Vec<Vec<u64>> = Vec::with_capacity(count);
        let mut i: usize = 0;
        while i < count
            invariant
                i <= count,
                count == ctx.moduli().len(),
                count == params.levels() - level,
                level < params.levels(),
                params.wf(),
                ctx.wf(),
                ctx.moduli() == as_ints(params.q_moduli().take(params.levels() - level)),
                n == params.n(),
                n == m@.len(),
                t_op.wf(),
                t_op.value() == params.t(),
                product == params.level_products()[level as int],
                scaled@ == scale_seq(m@, product as int, params.t()),
                reduced(scaled@, params.t()),
                target == scaled_rows(m@, *params, level as int),
                rows@.len() == i,
                forall|k: int| 0 <= k < i ==> (#[trigger] rows@[k])@ == target[k],
                forall|k: int|
                    0 <= k < i ==> (#[trigger] rows@[k])@.len() == n && reduced(
                        rows@[k]@,
                        ctx.moduli()[k],
                    ),
            decreases count - i,
        {
            let q = ctx.modulus_op(i);
            let delta: u64 = params.neg_t_inv_modq(i);
            let mut row: Vec<u64> = Vec::with_capacity(n);
            let mut j: usize = 0;
            while j < n
                invariant
                    j <= n,
                    i < count,
                    count == params.levels() - level,
                    level < params.levels(),
                    n == m@.len(),
                    scaled@.len() == n,
                    t_op.wf(),
                    t_op.value() == params.t(),
                    q.wf(),
                    q.value() == params.q_moduli()[i as int],
                    delta == params.neg_t_inverses()[i as int],
                    delta < q.value(),
                    product == params.level_products()[level as int],
                    scaled@ == scale_seq(m@, product as int, params.t()),
                    reduced(scaled@, params.t()),
                    target == scaled_rows(m@, *params, level as int),
                    row@.len() == j,
                    forall|k: int| 0 <= k < j ==> (#[trigger] row@[k]) == target[i as int][k],
                    forall|k: int| 0 <= k < j ==> (#[trigger] row@[k]) < q.value(),
                decreases n - j,
            {
                let c: i64 = t_op.center(scaled[j]);
                let r: u64 = q.reduce_i64(c);
                let v: u64 = q.mul(r, delta);
                proof {
                    let t = params.t();
                    let x = m@[j as int];
                    assert(scaled@[j as int] == (x * product) % t);
                    lemma_mod_twice(x * product, t);
                    assert(centered(scaled@[j as int] as int, t) == centered(x * product, t));
                }
                row.push(v);
                j += 1;
            }
            proof {
                assert(row@ =~= target[i as int]);
            }
            rows.push(row);
            i += 1;
        }
        let matrix = matrix_from_rows(&rows, n);
        proof {
            assert(matrix@ =~= target);
        }
        let mut p = Poly::new(matrix, ctx, Representation::Coefficient);
        p.change_representation(representation);
        p
    }

    /// The chain of the polynomial kept for multiplications.
    pub fn mul_poly_type(&self) -> (kind: PolyType)
        requires
            self.encoding_of() is Some,
            self.encoding_of()->0.poly_cache is Mul,
        ensures
            self.encoding_of()->0.poly_cache == PolyCache::Mul(kind),
    {
        match &self.encoding {
            Some(e) => match e.poly_cache {
                PolyCache::Mul(kind) => kind,
                _ => PolyType::Q,
            },
            None => PolyType::Q,
        }
    }

    /// The level of the plaintext.
    pub fn level(&self) -> (l: usize)
        requires
            self.encoding_of() is Some,
        ensures
            l == self.encoding_of()->0.level,
    {
        match &self.encoding {
            Some(e) => e.level,
            None => 0,
        }
    }

    /// Whether the plaintext keeps a polynomial for multiplications.
    pub fn supports_mul_poly(&self) -> (b: bool)
        ensures
            b == self.cached_mul() is Some,
    {
        self.mul_poly.is_some()
    }

    /// The polynomial kept for additions and subtractions.
    pub fn add_sub_poly_ref(&self) -> (p: &Poly)
        requires
            self.cached_add_sub() is Some,
        ensures
            *p == self.cached_add_sub()->0,
    {
        self.add_sub_poly.as_ref().unwrap()
    }

    /// The polynomial kept for multiplications.
    pub fn mul_poly_ref(&self) -> (p: &Poly)
        requires
            self.cached_mul() is Some,
        ensures
            *p == self.cached_mul()->0,
    {
        self.mul_poly.as_ref().unwrap()
    }

    /// Hands out the polynomial kept for multiplications.
    pub fn move_mul_poly(self) -> (p: Poly)
        requires
            self.cached_mul() is Some,
        ensures
            p == self.cached_mul()->0,
    {
        self.mul_poly.unwrap()
    }

    /// Hands out the polynomial kept for additions and subtractions.
    pub fn move_add_sub_poly(self) -> (p: Poly)
        requires
            self.cached_add_sub() is Some,
        ensures
            p == self.cached_add_sub()->0,
    {
        self.add_sub_poly.unwrap()
    }

    /// The values of the plaintext.
    pub fn value(&self) -> (v: &[u64])
        ensures
            v@ == self.values(),
    {
        self.m.as_slice()
    }

    /// A plaintext with the given values and no encoding, as decryption gives.
    pub fn from_values(m: Vec<u64>) -> (pt: Plaintext)
        ensures
            pt.values() == m@,
            pt.encoding_of() is None,
            pt.cached_mul() is None,
            pt.cached_add_sub() is None,
    {
        Plaintext { m, encoding: None, mul_poly: None, add_sub_poly: None }
    }
}

} // verus!
