//! The parameters of the scheme: degree, plaintext modulus, modulus chains,
//! slot permutation and scaling constants.

use crate::modulus::{as_ints, inverse_of, no_inverse, seq_product, Modulus, MODULUS_LIMIT};
use crate::nb_theory::{chain_exhausted, generate_chain, is_generated_chain, power_of_two};
use crate::ntt::{supports, NttOperator};
use crate::bigint::BigNat;
use crate::poly::{context_supported, PolyContext};
use std::sync::Arc;
use vstd::arithmetic::div_mod::*;
use vstd::arithmetic::logarithm::*;
use vstd::arithmetic::mul::*;
use vstd::arithmetic::power::*;
use vstd::arithmetic::power2::*;
use vstd::prelude::*;

verus! {

/// The chain of moduli that a polynomial lives in.
#[derive(Clone, Copy, PartialEq, Eq, Structural, Debug)]
pub enum PolyType {
    /// The ciphertext chain.
    Q,
    /// The extension chain.
    P,
    /// The extension chain followed by the ciphertext chain.
    PQ,
}

/// Why parameters or a key cannot be built.
#[derive(Clone, Copy, PartialEq, Eq, Structural, Debug)]
pub enum Error {
    /// The primes of some size ran out.
    ModulusGenerationExhausted,
    /// A number has no inverse modulo a modulus of a chain.
    NonInvertible,
    /// A modulus is out of range or has no transform of the degree.
    UnsupportedModulus,
    /// The degree has no slot permutation.
    UnsupportedDegree,
}

/// The number whose `bits` binary digits are those of `x` in reverse order.
pub open spec fn reverse_bits(x: nat, bits: nat) -> nat
    decreases bits,
{
    if bits == 0 {
        0
    } else {
        (x % 2) * pow2((bits - 1) as nat) + reverse_bits(x / 2, (bits - 1) as nat)
    }
}

/// The coefficient position of slot `i` for the degree `n`: the power of
/// three that belongs to the slot (negated in the second row), halved and
/// with its binary digits reversed.
pub open spec fn slot_position(i: int, n: int) -> int {
    let row = n / 2;
    let m = 2 * n;
    let power = pow(3, (if i < row { i } else { i - row }) as nat) % m;
    let index = if i < row {
        (power - 1) / 2
    } else {
        (m - power - 1) / 2
    };
    reverse_bits(index as nat, log(2, n) as nat) as int
}

/// The positions of all slots for the degree `n`.
pub open spec fn slot_map(n: int) -> Seq<usize> {
    Seq::new(n as nat, |i: int| slot_position(i, n) as usize)
}

/// `map` sends the indices below its length to each other, one to one.
pub open spec fn is_permutation(map: Seq<usize>) -> bool {
    &&& forall|i: int| 0 <= i < map.len() ==> (#[trigger] map[i]) < map.len()
    &&& forall|i: int, j: int|
        0 <= i < map.len() && 0 <= j < map.len() && i != j ==> (#[trigger] map[i])
            != (#[trigger] map[j])
}

/// The moduli at `level`: the first chain without its last `level` moduli,
/// then the second chain without its last `level` moduli.
pub open spec fn level_moduli(first: Seq<u64>, second: Seq<u64>, level: int) -> Seq<u64> {
    first.take(first.len() - level) + second.take(
        if second.len() >= level {
            second.len() - level
        } else {
            0
        },
    )
}

/// A context can be built at every level of the two chains.
pub open spec fn levels_supported(first: Seq<u64>, second: Seq<u64>, degree: int) -> bool {
    forall|level: int|
        0 <= level < first.len() ==> context_supported(
            #[trigger] level_moduli(first, second, level),
            degree,
        )
}

/// Reverses the `bits` binary digits of `x`.
fn reverse(x: u64, bits: usize) -> (r: u64)
    requires
        bits <= 62,
    ensures
        r == reverse_bits(x as nat, bits as nat),
        r < pow2(bits as nat),
    decreases bits,
{
    if bits == 0 {
        proof {
            lemma2_to64();
        }
        0
    } else {
        let high: u64 = power_of_two(bits - 1);
        let rest: u64 = reverse(x / 2, bits - 1);
        proof {
            lemma_pow2_unfold(bits as nat);
            lemma2_to64_rest();
            if bits < 62 {
                lemma_pow2_strictly_increases(bits as nat, 62);
            }
            assert((x % 2) * high <= high) by (nonlinear_arith)
                requires
                    x % 2 <= 1,
                    high >= 0,
            ;
        }
        (x % 2) * high + rest
    }
}

/// The logarithm of a power of two.
fn log_two(n: usize) -> (k: usize)
    requires
        is_pow2(n as int),
    ensures
        n == pow2(k as nat),
        k == log(2, n as int),
        k <= 63,
{
    let mut k: usize = 0;
    let mut m: usize = n;
    proof {
        lemma2_to64();
        reveal(is_pow2);
    }
    while m > 1
        invariant
            is_pow2(m as int),
            m >= 1,
            n == m * pow2(k as nat),
            k <= 64,
        decreases m,
    {
        proof {
            reveal(is_pow2);
            lemma_pow2_unfold((k + 1) as nat);
            assert(m == 2 * (m / 2));
            assert(m * pow2(k as nat) == (m / 2) * (2 * pow2(k as nat))) by (nonlinear_arith)
                requires
                    m == 2 * (m / 2),
            ;
            if k >= 64 {
                lemma_pow2_strictly_increases(63, k as nat);
                lemma2_to64_rest();
                assert(m * pow2(k as nat) >= 2 * pow2(k as nat)) by (nonlinear_arith)
                    requires
                        m >= 2,
                ;
            }
        }
        m = m / 2;
        k += 1;
    }
    proof {
        assert(m == 1);
        assert(n == pow2(k as nat)) by (nonlinear_arith)
            requires
                n == m * pow2(k as nat),
                m == 1,
        ;
        lemma_pow2(k as nat);
        lemma_log_pow(2, k as nat);
        if k >= 64 {
            lemma_pow2_strictly_increases(63, k as nat);
            lemma2_to64_rest();
        }
    }
    k
}

/// The coefficient positions of the slots for the degree `n`.
fn compute_slot_map(n: usize) -> (map: Vec<usize>)
    requires
        is_pow2(n as int),
        2 <= n <= isize::MAX,
    ensures
        map@ == slot_map(n as int),
{
    let bits: usize = log_two(n);
    let row: usize = n / 2;
    let m: u128 = 2 * (n as u128);
    proof {
        reveal(is_pow2);
        lemma2_to64_rest();
        if bits > 62 {
            lemma_pow2_strictly_increases(62, bits as nat);
        }
    }
    let mut first: Vec<usize> = Vec::with_capacity(row);
    let mut second: Vec<usize> = Vec::with_capacity(row);
    let mut power: u128 = 1;
    let mut i: usize = 0;
    proof {
        lemma_pow0(3);
        lemma_small_mod(1, m as nat);
    }
    while i < row
        invariant
            i <= row,
            n == 2 * row,
            row >= 1,
            m == 2 * n,
            n <= isize::MAX,
            bits <= 62,
            bits == log(2, n as int),
            n == pow2(bits as nat),
            power == pow(3, i as nat) % (m as int),
            power < m,
            power % 2 == 1,
            first@.len() == i,
            second@.len() == i,
            forall|k: int| 0 <= k < i ==> (#[trigger] first@[k]) == slot_position(k, n as int),
            forall|k: int| 0 <= k < i ==> (#[trigger] second@[k]) == slot_position(k + row, n as int),
        decreases row - i,
    {
        let a: u64 = ((power - 1) / 2) as u64;
        let b: u64 = ((m - power - 1) / 2) as u64;
        let x: u64 = reverse(a, bits);
        let y: u64 = reverse(b, bits);
        first.push(x as usize);
        second.push(y as usize);
        proof {
            lemma_pow_adds(3, i as nat, 1);
            lemma_pow1(3);
            lemma_mul_mod_noop_general(pow(3, i as nat), 3, m as int);
            lemma_odd_residue(3 * power as int, m as int);
        }
        power = (3 * power) % m;
        i += 1;
    }
    let ghost first_part = first@;
    let ghost second_part = second@;
    first.append(&mut second);
    proof {
        assert forall|k: int| 0 <= k < n implies (#[trigger] first@[k]) == slot_map(n as int)[k] by {
            if k >= row {
                assert(first@[k] == second_part[k - row]);
            } else {
                assert(first@[k] == first_part[k]);
            }
        }
        assert(first@ =~= slot_map(n as int));
    }
    first
}

/// An odd number leaves an odd remainder modulo an even number.
proof fn lemma_odd_residue(a: int, m: int)
    requires
        m > 0,
        m % 2 == 0,
        a % 2 == 1,
    ensures
        (a % m) % 2 == 1,
{
    lemma_fundamental_div_mod(a, m);
    let k = a / m;
    let h = m / 2;
    assert(m * k == 2 * (h * k)) by (nonlinear_arith)
        requires
            m == 2 * h,
    ;
}

/// Whether `map` sends the indices below its length to each other, one to one.
pub fn check_permutation(map: &Vec<usize>) -> (b: bool)
    ensures
        b == is_permutation(map@),
{
    let n: usize = map.len();
    let mut seen: Vec<bool> = Vec::with_capacity(n);
    let mut i: usize = 0;
    while i < n
        invariant
            i <= n,
            seen@.len() == i,
            forall|k: int| 0 <= k < i ==> !(#[trigger] seen@[k]),
        decreases n - i,
    {
        seen.push(false);
        i += 1;
    }
    let mut i: usize = 0;
    while i < n
        invariant
            i <= n,
            n == map@.len(),
            seen@.len() == n,
            forall|k: int| 0 <= k < i ==> (#[trigger] map@[k]) < n,
            forall|k: int, l: int| 0 <= k < i && 0 <= l < i && k != l ==> (#[trigger] map@[k]) != (#[trigger] map@[l]),
            forall|v: int|
                0 <= v < n ==> ((#[trigger] seen@[v]) <==> exists|k: int|
                    0 <= k < i && map@[k] == v),
        decreases n - i,
    {
        let v: usize = map[i];
        if v >= n {
            return false;
        }
        if seen[v] {
            proof {
                let k = choose|k: int| 0 <= k < i && map@[k] == v;
                assert(map@[k] == map@[i as int]);
            }
            return false;
        }
        let ghost before = seen@;
        seen.set(v, true);
        proof {
            assert forall|w: int| 0 <= w < n implies ((#[trigger] seen@[w]) <==> exists|k: int|
                0 <= k < i + 1 && map@[k] == w) by {
                if w == v {
                    assert(map@[i as int] == w);
                } else {
                    assert(seen@[w] == before[w]);
                    if before[w] {
                        let k = choose|k: int| 0 <= k < i && map@[k] == w;
                        assert(0 <= k < i + 1 && map@[k] == w);
                    }
                    if exists|k: int| 0 <= k < i + 1 && map@[k] == w {
                        let k = choose|k: int| 0 <= k < i + 1 && map@[k] == w;
                        assert(k != i);
                        assert(0 <= k < i && map@[k] == w);
                    }
                }
            }
            assert forall|k: int, l: int| 0 <= k < i + 1 && 0 <= l < i + 1 && k != l implies (#[trigger] map@[k]) != (#[trigger] map@[l]) by {
                if k == i && map@[l] == v {
                    assert(before[v as int]);
                }
                if l == i && map@[k] == v {
                    assert(before[v as int]);
                }
            }
        }
        i += 1;
    }
    true
}

/// The scaling constant of a chain under modulus `i`: the product of the
/// moduli divided by the plaintext modulus, rounded down.
pub open spec fn delta_of(moduli: Seq<int>, t: int, i: int) -> int {
    (seq_product(moduli) / t) % moduli[i]
}

/// For every level, the scaling constant under every modulus of the level.
fn level_deltas(contexts: &Vec<Arc<PolyContext>>, t: u64) -> (r: Vec<Vec<u64>>)
    requires
        t >= 2,
    ensures
        r@.len() == contexts@.len(),
        forall|level: int|
            0 <= level < r@.len() ==> (#[trigger] r@[level])@.len() == contexts@[level].moduli().len(),
        forall|level: int, i: int|
            0 <= level < r@.len() && 0 <= i < contexts@[level].moduli().len() ==> (
            #[trigger] r@[level]@[i]) == delta_of(contexts@[level].moduli(), t as int, i),
{
    let levels: usize = contexts.len();
    let mut r: Vec<Vec<u64>> = Vec::with_capacity(levels);
    let mut level: usize = 0;
    while level < levels
        invariant
            level <= levels,
            levels == contexts@.len(),
            t >= 2,
            r@.len() == level,
            forall|l: int|
                0 <= l < level ==> (#[trigger] r@[l])@.len() == contexts@[l].moduli().len(),
            forall|l: int, i: int|
                0 <= l < level && 0 <= i < contexts@[l].moduli().len() ==> (#[trigger] r@[l]@[i])
                    == delta_of(contexts@[l].moduli(), t as int, i),
        decreases levels - level,
    {
        let ctx = &contexts[level];
        let count: usize = ctx.moduli_count();
        let delta = ctx.modulus().div(&BigNat::from_u64(t));
        let mut row: Vec<u64> = Vec::with_capacity(count);
        let mut i: usize = 0;
        while i < count
            invariant
                i <= count,
                count == ctx.moduli().len(),
                delta@ == seq_product(ctx.moduli()) as nat / (t as nat),
                seq_product(ctx.moduli()) >= 1,
                row@.len() == i,
                forall|k: int| 0 <= k < i ==> (#[trigger] row@[k]) == delta_of(ctx.moduli(), t as int, k),
            decreases count - i,
        {
            row.push(delta.rem_u64(ctx.modulus_op(i).modulus()));
            i += 1;
        }
        r.push(row);
        level += 1;
    }
    r
}

/// The contexts of all levels of two chains, or nothing when one of them
/// cannot be built.
fn level_contexts(first: &Vec<u64>, second: &Vec<u64>, degree: usize) -> (r: Option<Vec<Arc<PolyContext>>>)
    ensures
        r is Some <==> levels_supported(first@, second@, degree as int),
        r is Some ==> {
            &&& r->0@.len() == first@.len()
            &&& forall|level: int|
                0 <= level < first@.len() ==> {
                    &&& (#[trigger] r->0@[level]).wf()
                    &&& r->0@[level].n() == degree
                    &&& r->0@[level].moduli() == as_ints(level_moduli(first@, second@, level))
                }
        },
{
    let levels: usize = first.len();
    let mut contexts: Vec<Arc<PolyContext>> = Vec::with_capacity(levels);
    let mut level: usize = 0;
    while level < levels
        invariant
            level <= levels,
            levels == first@.len(),
            contexts@.len() == level,
            forall|l: int|
                0 <= l < level ==> context_supported(
                    #[trigger] level_moduli(first@, second@, l),
                    degree as int,
                ),
            forall|l: int|
                0 <= l < level ==> {
                    &&& (#[trigger] contexts@[l]).wf()
                    &&& contexts@[l].n() == degree
                    &&& contexts@[l].moduli() == as_ints(level_moduli(first@, second@, l))
                },
        decreases levels - level,
    {
        let a: usize = levels - level;
        let b: usize = if second.len() >= level {
            second.len() - level
        } else {
            0
        };
        let mut moduli: Vec<u64> = Vec::with_capacity(a);
        let mut i: usize = 0;
        while i < a
            invariant
                i <= a,
                a <= first@.len(),
                moduli@.len() == i,
                forall|k: int| 0 <= k < i ==> (#[trigger] moduli@[k]) == first@[k],
            decreases a - i,
        {
            moduli.push(first[i]);
            i += 1;
        }
        let mut i: usize = 0;
        while i < b
            invariant
                i <= b,
                b <= second@.len(),
                a <= first@.len(),
                moduli@.len() == a + i,
                forall|k: int| 0 <= k < a ==> (#[trigger] moduli@[k]) == first@[k],
                forall|k: int| 0 <= k < i ==> (#[trigger] moduli@[a + k]) == second@[k],
            decreases b - i,
        {
            moduli.push(second[i]);
            i += 1;
        }
        proof {
            let target = level_moduli(first@, second@, level as int);
            assert(target.len() == a + b);
            assert forall|k: int| 0 <= k < a + b implies moduli@[k] == target[k] by {
                if k >= a {
                    assert(moduli@[a + (k - a)] == second@[k - a]);
                }
            }
            assert(moduli@ =~= target);
        }
        match PolyContext::new(moduli.as_slice(), degree) {
            None => {
                return None;
            },
            Some(ctx) => {
                contexts.push(Arc::new(ctx));
            },
        }
        level += 1;
    }
    Some(contexts)
}

/// The two chains that the sizes `bits` give for the degree and the
/// plaintext modulus `t`: the ciphertext chain `q` avoids `t`, the extension
/// chain `p` avoids `t` and `q`.
pub open spec fn generated_chains(q: Seq<u64>, p: Seq<u64>, bits: Seq<usize>, degree: int, t: u64) -> bool {
    &&& is_generated_chain(q, bits, 2 * degree, seq![t])
    &&& is_generated_chain(p, bits, 2 * degree, seq![t] + q)
}

/// Contexts can be built at every level of the ciphertext chain, of the
/// extension chain and of the two together.
pub open spec fn chains_supported(q: Seq<u64>, p: Seq<u64>, degree: int) -> bool {
    &&& levels_supported(q, Seq::<u64>::empty(), degree)
    &&& levels_supported(p, Seq::<u64>::empty(), degree)
    &&& levels_supported(p, q, degree)
}

/// The moduli of the chain `kind` at `level`.
pub open spec fn kind_moduli(q: Seq<u64>, p: Seq<u64>, kind: PolyType, level: int) -> Seq<u64> {
    match kind {
        PolyType::Q => level_moduli(q, Seq::<u64>::empty(), level),
        PolyType::P => level_moduli(p, Seq::<u64>::empty(), level),
        PolyType::PQ => level_moduli(p, q, level),
    }
}

/// `x` is the inverse of minus `t` modulo `q`.
pub open spec fn is_neg_inverse(x: int, t: int, q: int) -> bool {
    0 <= x < q && (t * x + 1) % q == 0
}

/// From `(-t) * x = 1` to `t * x + 1 = 0` modulo `q`.
proof fn lemma_neg_inverse(t: int, x: int, q: int)
    requires
        q >= 2,
        ((-t) * x) % q == 1,
    ensures
        (t * x + 1) % q == 0,
{
    lemma_fundamental_div_mod((-t) * x, q);
    let k = ((-t) * x) / q;
    assert(t * x + 1 == q * (-k)) by (nonlinear_arith)
        requires
            (-t) * x == q * k + 1,
    ;
    lemma_mod_multiples_basic(-k, q);
    lemma_mul_is_commutative(q, -k);
}

/// The parameters of the scheme.
pub struct BfvParameters {
    degree: usize,
    plaintext_modulus: u64,
    plaintext_modulus_op: Modulus,
    plaintext_ntt_op: NttOperator,
    ciphertext_moduli: Vec<u64>,
    extension_moduli: Vec<u64>,
    ciphertext_poly_contexts: Vec<Arc<PolyContext>>,
    extension_poly_contexts: Vec<Arc<PolyContext>>,
    pq_poly_contexts: Vec<Arc<PolyContext>>,
    matrix_reps_index_map: Vec<usize>,
    ql_modt: Vec<u64>,
    neg_t_inv_modq: Vec<u64>,
    delta: Vec<Vec<u64>>,
}

impl BfvParameters {
    #[verifier::type_invariant]
    spec fn type_inv(self) -> bool {
        self.wf()
    }

    /// The degree of the polynomials.
    pub closed spec fn n(&self) -> nat {
        self.degree as nat
    }

    /// The plaintext modulus.
    pub closed spec fn t(&self) -> int {
        self.plaintext_modulus as int
    }

    /// The transform modulo the plaintext modulus.
    pub closed spec fn t_ntt(&self) -> NttOperator {
        self.plaintext_ntt_op
    }

    /// The ciphertext chain.
    pub closed spec fn q_moduli(&self) -> Seq<u64> {
        self.ciphertext_moduli@
    }

    /// The extension chain.
    pub closed spec fn p_moduli(&self) -> Seq<u64> {
        self.extension_moduli@
    }

    /// The context of the chain `kind` at `level`.
    pub closed spec fn ctx(&self, kind: PolyType, level: int) -> PolyContext {
        match kind {
            PolyType::Q => *self.ciphertext_poly_contexts@[level],
            PolyType::P => *self.extension_poly_contexts@[level],
            PolyType::PQ => *self.pq_poly_contexts@[level],
        }
    }

    /// The coefficient position of every slot.
    pub closed spec fn index_map(&self) -> Seq<usize> {
        self.matrix_reps_index_map@
    }

    /// For every level, the product of the ciphertext moduli of that level
    /// modulo the plaintext modulus.
    pub closed spec fn level_products(&self) -> Seq<u64> {
        self.ql_modt@
    }

    /// For every ciphertext modulus, the inverse of minus the plaintext modulus.
    pub closed spec fn neg_t_inverses(&self) -> Seq<u64> {
        self.neg_t_inv_modq@
    }

    /// For every level, the scaling constant under every modulus of the level.
    pub closed spec fn deltas(&self) -> Seq<Seq<u64>> {
        Seq::new(self.delta@.len(), |level: int| self.delta@[level]@)
    }

    /// The number of levels, which is the length of the ciphertext chain.
    pub open spec fn levels(&self) -> nat {
        self.q_moduli().len()
    }

    /// The parts of the parameters fit together.
    pub closed spec fn wf(&self) -> bool {
        &&& self.plaintext_modulus_op.wf()
        &&& self.plaintext_modulus_op.value() == self.plaintext_modulus
        &&& self.plaintext_ntt_op.wf()
        &&& self.plaintext_ntt_op.q() == self.plaintext_modulus
        &&& self.plaintext_ntt_op.n() == self.degree
        &&& self.ciphertext_moduli@.len() >= 1
        &&& self.extension_moduli@.len() == self.ciphertext_moduli@.len()
        &&& self.ciphertext_poly_contexts@.len() == self.ciphertext_moduli@.len()
        &&& self.extension_poly_contexts@.len() == self.ciphertext_moduli@.len()
        &&& self.pq_poly_contexts@.len() == self.ciphertext_moduli@.len()
        &&& forall|kind: PolyType, level: int|
            0 <= level < self.ciphertext_moduli@.len() ==> {
                &&& (#[trigger] self.ctx(kind, level)).wf()
                &&& self.ctx(kind, level).n() == self.degree
                &&& self.ctx(kind, level).moduli() == as_ints(
                    kind_moduli(self.ciphertext_moduli@, self.extension_moduli@, kind, level),
                )
            }
        &&& self.matrix_reps_index_map@.len() == self.degree
        &&& is_permutation(self.matrix_reps_index_map@)
        &&& self.ql_modt@.len() == self.ciphertext_moduli@.len()
        &&& forall|level: int|
            0 <= level < self.ciphertext_moduli@.len() ==> (#[trigger] self.ql_modt@[level])
                == seq_product(
                as_ints(self.ciphertext_moduli@.take(self.ciphertext_moduli@.len() - level)),
            ) % (self.plaintext_modulus as int)
        &&& self.neg_t_inv_modq@.len() == self.ciphertext_moduli@.len()
        &&& forall|i: int|
            0 <= i < self.ciphertext_moduli@.len() ==> is_neg_inverse(
                (#[trigger] self.neg_t_inv_modq@[i]) as int,
                self.plaintext_modulus as int,
                self.ciphertext_moduli@[i] as int,
            )
        &&& self.delta@.len() == self.ciphertext_moduli@.len()
        &&& forall|level: int|
            0 <= level < self.delta@.len() ==> (#[trigger] self.delta@[level])@.len()
                == self.ciphertext_moduli@.len() - level
        &&& forall|level: int, i: int|
            0 <= level < self.delta@.len() && 0 <= i < self.ciphertext_moduli@.len() - level ==> (
            #[trigger] self.delta@[level]@[i]) == delta_of(
                as_ints(self.ciphertext_moduli@.take(self.ciphertext_moduli@.len() - level)),
                self.plaintext_modulus as int,
                i,
            )
    }

    /// What well-formedness means.
    pub proof fn lemma_wf(&self)
        requires
            self.wf(),
        ensures
            2 <= self.t() < MODULUS_LIMIT,
            self.t_ntt().wf(),
            self.t_ntt().q() == self.t(),
            self.t_ntt().n() == self.n(),
            self.levels() >= 1,
            self.p_moduli().len() == self.levels(),
            forall|kind: PolyType, level: int|
                0 <= level < self.levels() ==> {
                    &&& (#[trigger] self.ctx(kind, level)).wf()
                    &&& self.ctx(kind, level).n() == self.n()
                    &&& self.ctx(kind, level).moduli() == as_ints(
                        kind_moduli(self.q_moduli(), self.p_moduli(), kind, level),
                    )
                },
            self.index_map().len() == self.n(),
            is_permutation(self.index_map()),
            self.level_products().len() == self.levels(),
            forall|level: int|
                0 <= level < self.levels() ==> (#[trigger] self.level_products()[level])
                    == seq_product(as_ints(self.q_moduli().take(self.levels() - level))) % self.t(),
            self.neg_t_inverses().len() == self.levels(),
            forall|i: int|
                0 <= i < self.levels() ==> is_neg_inverse(
                    (#[trigger] self.neg_t_inverses()[i]) as int,
                    self.t(),
                    self.q_moduli()[i] as int,
                ),
    {
    }

    /// Builds the parameters for the given sizes of the moduli, plaintext
    /// modulus and degree. The ciphertext chain holds, for each size in turn,
    /// the largest prime of that size that leaves one modulo twice the degree
    /// and is neither the plaintext modulus nor already in the chain; the
    /// extension chain is chosen in the same way among the primes that are
    /// left.
    pub fn new(moduli_bits: &[usize], plaintext_modulus: u64, degree: usize) -> (r: Result<
        BfvParameters,
        Error,
    >)
        ensures
            match r {
                Ok(params) => {
                    &&& params.wf()
                    &&& params.n() == degree
                    &&& params.t() == plaintext_modulus
                    &&& params.index_map() == slot_map(degree as int)
                    &&& generated_chains(
                        params.q_moduli(),
                        params.p_moduli(),
                        moduli_bits@,
                        degree as int,
                        plaintext_modulus,
                    )
                },
                Err(Error::UnsupportedModulus) => {
                    ||| !(2 <= plaintext_modulus < MODULUS_LIMIT && supports(
                        degree as int,
                        plaintext_modulus as int,
                    ))
                    ||| exists|q: Seq<u64>, p: Seq<u64>| #[trigger]
                        generated_chains(q, p, moduli_bits@, degree as int, plaintext_modulus)
                            && !(q.len() >= 1 && chains_supported(q, p, degree as int))
                },
                Err(Error::UnsupportedDegree) => {
                    degree < 2 || degree > isize::MAX || !is_permutation(slot_map(degree as int))
                },
                Err(Error::ModulusGenerationExhausted) => {
                    ||| chain_exhausted(moduli_bits@, 2 * degree, seq![plaintext_modulus])
                    ||| exists|q: Seq<u64>| #[trigger]
                        is_generated_chain(q, moduli_bits@, 2 * degree, seq![plaintext_modulus])
                            && chain_exhausted(
                            moduli_bits@,
                            2 * degree,
                            seq![plaintext_modulus] + q,
                        )
                },
                Err(Error::NonInvertible) => exists|q: Seq<u64>, i: int|
                    is_generated_chain(q, moduli_bits@, 2 * degree, seq![plaintext_modulus]) && 0
                        <= i < q.len() && #[trigger] no_inverse(
                        -(plaintext_modulus as int),
                        q[i] as int,
                    ),
            },
    {
        let t: u64 = plaintext_modulus;
        let t_op = match Modulus::new(t) {
            Some(m) => m,
            None => {
                return Err(Error::UnsupportedModulus);
            },
        };
        let t_ntt = match NttOperator::new(t_op, degree) {
            Some(op) => op,
            None => {
                return Err(Error::UnsupportedModulus);
            },
        };
        if degree < 2 || degree > isize::MAX as usize {
            return Err(Error::UnsupportedDegree);
        }
        let map = compute_slot_map(degree);
        if !check_permutation(&map) {
            return Err(Error::UnsupportedDegree);
        }
        let modulo: u64 = 2 * (degree as u64);
        let mut avoid: Vec<u64> = Vec::with_capacity(1);
        avoid.push(t);
        proof {
            assert(avoid@ =~= seq![t]);
        }
        let q = match generate_chain(moduli_bits, modulo, &avoid) {
            Some(chain) => chain,
            None => {
                return Err(Error::ModulusGenerationExhausted);
            },
        };
        let mut i: usize = 0;
        while i < q.len()
            invariant
                i <= q@.len(),
                avoid@ =~= seq![t] + q@.take(i as int),
            decreases q@.len() - i,
        {
            avoid.push(q[i]);
            proof {
                assert(q@.take(i + 1) =~= q@.take(i as int).push(q@[i as int]));
            }
            i += 1;
        }
        proof {
            assert(q@.take(q@.len() as int) =~= q@);
        }
        let p = match generate_chain(moduli_bits, modulo, &avoid) {
            Some(chain) => chain,
            None => {
                proof {
                    assert(is_generated_chain(q@, moduli_bits@, 2 * degree, seq![t]));
                }
                return Err(Error::ModulusGenerationExhausted);
            },
        };
        proof {
            assert(generated_chains(q@, p@, moduli_bits@, degree as int, t));
        }
        if q.len() == 0 {
            return Err(Error::UnsupportedModulus);
        }
        let none: Vec<u64> = Vec::new();
        proof {
            assert(none@ =~= Seq::<u64>::empty());
        }
        let q_contexts = match level_contexts(&q, &none, degree) {
            Some(c) => c,
            None => {
                return Err(Error::UnsupportedModulus);
            },
        };
        let p_contexts = match level_contexts(&p, &none, degree) {
            Some(c) => c,
            None => {
                return Err(Error::UnsupportedModulus);
            },
        };
        let pq_contexts = match level_contexts(&p, &q, degree) {
            Some(c) => c,
            None => {
                return Err(Error::UnsupportedModulus);
            },
        };
        let levels: usize = q.len();
        proof {
            assert(level_moduli(q@, none@, 0) =~= q@);
            assert(context_supported(level_moduli(q@, none@, 0), degree as int));
        }
        // products of the first moduli, modulo the plaintext modulus
        let mut products: Vec<u64> = Vec::with_capacity(levels + 1);
        products.push(1);
        let mut k: usize = 0;
        proof {
            assert(as_ints(q@.take(0)).len() == 0);
            lemma_small_mod(1, t as nat);
        }
        while k < levels
            invariant
                k <= levels,
                levels == q@.len(),
                t_op.wf(),
                t_op.value() == t,
                products@.len() == k + 1,
                forall|c: int|
                    0 <= c <= k ==> (#[trigger] products@[c]) == seq_product(as_ints(q@.take(c)))
                        % (t as int),
            decreases levels - k,
        {
            let next: u64 = t_op.mul(products[k], t_op.reduce(q[k]));
            proof {
                let a = as_ints(q@.take(k as int));
                let b = as_ints(q@.take(k + 1));
                assert(b.drop_last() =~= a);
                assert(b.last() == q@[k as int]);
                lemma_mul_mod_noop_general(seq_product(a), q@[k as int] as int, t as int);
            }
            products.push(next);
            k += 1;
        }
        let mut ql_modt: Vec<u64> = Vec::with_capacity(levels);
        let mut level: usize = 0;
        while level < levels
            invariant
                level <= levels,
                levels == q@.len(),
                products@.len() == levels + 1,
                forall|c: int|
                    0 <= c <= levels ==> (#[trigger] products@[c]) == seq_product(
                        as_ints(q@.take(c)),
                    ) % (t as int),
                ql_modt@.len() == level,
                forall|l: int|
                    0 <= l < level ==> (#[trigger] ql_modt@[l]) == seq_product(
                        as_ints(q@.take(levels - l)),
                    ) % (t as int),
            decreases levels - level,
        {
            ql_modt.push(products[levels - level]);
            level += 1;
        }
        // the inverse of minus the plaintext modulus under each modulus
        let mut neg_t_inv: Vec<u64> = Vec::with_capacity(levels);
        let ctx0 = &q_contexts[0];
        proof {
            assert(level_moduli(q@, none@, 0) =~= q@);
            ctx0.lemma_wf();
        }
        let mut i: usize = 0;
        while i < levels
            invariant
                i <= levels,
                levels == q@.len(),
                ctx0.wf(),
                ctx0.moduli() == as_ints(q@),
                t == plaintext_modulus,
                is_generated_chain(q@, moduli_bits@, 2 * degree, seq![t]),
                neg_t_inv@.len() == i,
                forall|c: int|
                    0 <= c < i ==> is_neg_inverse(
                        (#[trigger] neg_t_inv@[c]) as int,
                        t as int,
                        q@[c] as int,
                    ),
            decreases levels - i,
        {
            let m = ctx0.modulus_op(i);
            let minus_t: u64 = m.neg(m.reduce(t));
            proof {
                let qi = q@[i as int] as int;
                lemma_sub_mod_noop_right(0, t as int, qi);
                assert(minus_t == (-(t as int)) % qi);
            }
            match m.inv(minus_t) {
                None => {
                    proof {
                        let qi = q@[i as int] as int;
                        assert forall|y: int| !#[trigger] inverse_of(-(t as int), y, qi) by {
                            lemma_mul_mod_noop_general(-(t as int), y, qi);
                            assert(!inverse_of(minus_t as int, y, qi));
                        }
                        assert(no_inverse(-(t as int), q@[i as int] as int));
                    }
                    return Err(Error::NonInvertible);
                },
                Some(x) => {
                    proof {
                        let qi = q@[i as int] as int;
                        lemma_mul_mod_noop_general(-(t as int), x as int, qi);
                        assert(((-(t as int)) * x) % qi == 1);
                        lemma_neg_inverse(t as int, x as int, qi);
                    }
                    neg_t_inv.push(x);
                },
            }
            i += 1;
        }
        let delta = level_deltas(&q_contexts, t);
        proof {
            assert forall|level: int| 0 <= level < levels implies (#[trigger] q_contexts@[level]).moduli()
                == as_ints(q@.take(levels - level)) by {
                assert(level_moduli(q@, none@, level) =~= q@.take(levels - level));
            }
        }
        let params = BfvParameters {
            degree,
            plaintext_modulus: t,
            plaintext_modulus_op: t_op,
            plaintext_ntt_op: t_ntt,
            ciphertext_moduli: q,
            extension_moduli: p,
            ciphertext_poly_contexts: q_contexts,
            extension_poly_contexts: p_contexts,
            pq_poly_contexts: pq_contexts,
            matrix_reps_index_map: map,
            ql_modt,
            neg_t_inv_modq: neg_t_inv,
            delta,
        };
        Ok(params)
    }

    /// The degree of the polynomials.
    pub fn degree(&self) -> (n: usize)
        ensures
            n == self.n(),
            self.wf(),
    {
        proof {
            use_type_invariant(self);
        }
        self.degree
    }

    /// The plaintext modulus.
    pub fn plaintext_modulus(&self) -> (t: u64)
        ensures
            t == self.t(),
            self.wf(),
    {
        proof {
            use_type_invariant(self);
        }
        self.plaintext_modulus
    }

    /// Arithmetic modulo the plaintext modulus.
    pub fn plaintext_modulus_op(&self) -> (m: Modulus)
        ensures
            m.value() == self.t(),
            m.wf(),
            self.wf(),
    {
        proof {
            use_type_invariant(self);
        }
        self.plaintext_modulus_op
    }

    /// The transform modulo the plaintext modulus.
    pub fn plaintext_ntt_op(&self) -> (op: NttOperator)
        ensures
            op == self.t_ntt(),
            op.wf(),
            op.q() == self.t(),
            op.n() == self.n(),
            self.wf(),
    {
        proof {
            use_type_invariant(self);
        }
        self.plaintext_ntt_op
    }

    /// The number of levels.
    pub fn level_count(&self) -> (l: usize)
        ensures
            l == self.levels(),
            l >= 1,
            self.wf(),
    {
        proof {
            use_type_invariant(self);
        }
        self.ciphertext_moduli.len()
    }

    /// The ciphertext chain.
    pub fn ciphertext_moduli(&self) -> (q: &Vec<u64>)
        ensures
            q@ == self.q_moduli(),
            self.wf(),
    {
        proof {
            use_type_invariant(self);
        }
        &self.ciphertext_moduli
    }

    /// The extension chain.
    pub fn extension_moduli(&self) -> (p: &Vec<u64>)
        ensures
            p@ == self.p_moduli(),
            self.wf(),
    {
        proof {
            use_type_invariant(self);
        }
        &self.extension_moduli
    }

    /// The coefficient position of every slot.
    pub fn matrix_reps_index_map(&self) -> (map: &Vec<usize>)
        ensures
            map@ == self.index_map(),
            map@.len() == self.n(),
            is_permutation(map@),
            self.wf(),
    {
        proof {
            use_type_invariant(self);
        }
        &self.matrix_reps_index_map
    }

    /// The context of the chain `kind` at `level`.
    pub fn poly_ctx(&self, kind: &PolyType, level: usize) -> (ctx: &Arc<PolyContext>)
        requires
            level < self.levels(),
        ensures
            **ctx == self.ctx(*kind, level as int),
            ctx.wf(),
            ctx.n() == self.n(),
            ctx.moduli() == as_ints(kind_moduli(self.q_moduli(), self.p_moduli(), *kind, level as int)),
            self.wf(),
    {
        proof {
            use_type_invariant(self);
            assert(self.ctx(*kind, level as int).wf());
        }
        match kind {
            PolyType::Q => &self.ciphertext_poly_contexts[level],
            PolyType::P => &self.extension_poly_contexts[level],
            PolyType::PQ => &self.pq_poly_contexts[level],
        }
    }

    /// The product of the ciphertext moduli of `level` modulo the plaintext modulus.
    pub fn ql_modt(&self, level: usize) -> (r: u64)
        requires
            level < self.levels(),
        ensures
            r == self.level_products()[level as int],
            r == seq_product(as_ints(self.q_moduli().take(self.levels() - level))) % self.t(),
            self.wf(),
    {
        proof {
            use_type_invariant(self);
        }
        self.ql_modt[level]
    }

    /// The scaling constants of `level`: under every modulus of the level,
    /// the product of the level's moduli divided by the plaintext modulus,
    /// rounded down.
    pub fn delta(&self, level: usize) -> (r: &Vec<u64>)
        requires
            level < self.levels(),
        ensures
            r@ == self.deltas()[level as int],
            r@.len() == self.levels() - level,
            forall|i: int|
                0 <= i < r@.len() ==> (#[trigger] r@[i]) == delta_of(
                    as_ints(self.q_moduli().take(self.levels() - level)),
                    self.t(),
                    i,
                ),
            self.wf(),
    {
        proof {
            use_type_invariant(self);
        }
        &self.delta[level]
    }

    /// The inverse of minus the plaintext modulus modulo ciphertext modulus `i`.
    pub fn neg_t_inv_modq(&self, i: usize) -> (r: u64)
        requires
            i < self.levels(),
        ensures
            r == self.neg_t_inverses()[i as int],
            is_neg_inverse(r as int, self.t(), self.q_moduli()[i as int] as int),
            self.wf(),
    {
        proof {
            use_type_invariant(self);
        }
        self.neg_t_inv_modq[i]
    }
}

} // verus!
