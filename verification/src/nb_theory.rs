//! Primes for the modulus chains.

use vstd::arithmetic::div_mod::*;
use vstd::arithmetic::power2::*;
use vstd::prelude::*;

verus! {

/// `p` has no divisor between one and itself.
pub open spec fn is_prime(p: int) -> bool {
    p >= 2 && forall|d: int| 2 <= d < p ==> #[trigger] (p % d) != 0
}

/// `p` is a prime of `num_bits` bits below `upper_bound` that leaves one
/// modulo `modulo`.
pub open spec fn is_candidate(p: int, num_bits: int, modulo: int, upper_bound: int) -> bool {
    &&& 2 <= num_bits <= 62
    &&& modulo >= 2
    &&& pow2((num_bits - 1) as nat) <= p < upper_bound
    &&& p < pow2(num_bits as nat)
    &&& p % modulo == 1
    &&& is_prime(p)
}

/// `num_bigint_dig::prime::probably_prime` on a word: whether `p` is prime.
/// For a number below 2^64 the test is exact.
#[verifier::external_body]
fn probably_prime(p: u64) -> (b: bool)
    ensures
        b == is_prime(p as int),
{
    num_bigint_dig::prime::probably_prime(&num_bigint_dig::BigUint::from(p), 0)
}

/// Whether `p` is prime.
pub fn check_prime(p: u64) -> (b: bool)
    ensures
        b == is_prime(p as int),
{
    probably_prime(p)
}

/// Two to the power `e`, for `e` below 63.
pub fn power_of_two(e: usize) -> (r: u64)
    requires
        e <= 62,
    ensures
        r == pow2(e as nat),
{
    let mut r: u64 = 1;
    let mut i: usize = 0;
    proof {
        lemma2_to64();
        lemma2_to64_rest();
    }
    while i < e
        invariant
            i <= e,
            e <= 62,
            r == pow2(i as nat),
            pow2(62) == 0x4000000000000000,
        decreases e - i,
    {
        proof {
            lemma_pow2_unfold((i + 1) as nat);
            if i + 1 < 62 {
                lemma_pow2_strictly_increases((i + 1) as nat, 62);
            }
        }
        r = 2 * r;
        i += 1;
    }
    r
}

/// The largest prime of `num_bits` bits below `upper_bound` that leaves one
/// modulo `modulo`, or nothing when there is none.
pub fn generate_prime(num_bits: usize, modulo: u64, upper_bound: u64) -> (r: Option<u64>)
    ensures
        match r {
            Some(p) => {
                &&& is_candidate(p as int, num_bits as int, modulo as int, upper_bound as int)
                &&& forall|c: int|
                    p < c ==> !#[trigger] is_candidate(
                        c,
                        num_bits as int,
                        modulo as int,
                        upper_bound as int,
                    )
            },
            None => forall|c: int|
                !#[trigger] is_candidate(c, num_bits as int, modulo as int, upper_bound as int),
        },
{
    if num_bits < 2 || num_bits > 62 || modulo < 2 {
        return None;
    }
    let low: u64 = power_of_two(num_bits - 1);
    proof {
        lemma_pow2_unfold(num_bits as nat);
        lemma2_to64_rest();
        if num_bits < 62 {
            lemma_pow2_strictly_increases(num_bits as nat, 62);
        }
    }
    let high: u64 = 2 * low;
    let bound: u64 = if upper_bound < high {
        upper_bound
    } else {
        high
    };
    if bound <= low {
        return None;
    }
    // the largest number below the bound that leaves one
    let top: u64 = bound - 1;
    proof {
        lemma_leaves_one(top as int, modulo as int);
    }
    let mut t: u64 = top - (top - 1) % modulo;
    proof {
        assert forall|c: int| t < c implies !#[trigger] is_candidate(
            c,
            num_bits as int,
            modulo as int,
            upper_bound as int,
        ) by {
            if c < bound && c % (modulo as int) == 1 {
                lemma_spacing(t as int, c, modulo as int);
            }
        }
    }
    while t >= low
        invariant
            2 <= num_bits <= 62,
            modulo >= 2,
            low == pow2((num_bits - 1) as nat),
            high == pow2(num_bits as nat),
            low >= 1,
            t < bound,
            bound <= upper_bound,
            bound <= high,
            t % modulo == 1,
            forall|c: int|
                t < c ==> !#[trigger] is_candidate(
                    c,
                    num_bits as int,
                    modulo as int,
                    upper_bound as int,
                ),
        decreases t,
    {
        if probably_prime(t) {
            return Some(t);
        }
        if t < modulo {
            proof {
                assert forall|c: int| !#[trigger] is_candidate(
                    c,
                    num_bits as int,
                    modulo as int,
                    upper_bound as int,
                ) by {
                    if c < t && c >= 0 && c % (modulo as int) == 1 {
                        lemma_spacing(c, t as int, modulo as int);
                    }
                }
            }
            return None;
        }
        proof {
            let s = t - modulo;
            lemma_mod_sub_multiples_vanish(t as int, modulo as int);
            assert forall|c: int| s < c implies !#[trigger] is_candidate(
                c,
                num_bits as int,
                modulo as int,
                upper_bound as int,
            ) by {
                if c < t && c % (modulo as int) == 1 {
                    lemma_spacing(c, t as int, modulo as int);
                }
            }
        }
        t = t - modulo;
    }
    None
}

/// `c` can stand in a chain after the primes `before`: it is a prime of
/// `num_bits` bits that leaves one modulo `modulo`, and neither `avoid` nor
/// `before` holds it.
pub open spec fn is_available(c: int, before: Seq<u64>, num_bits: int, modulo: int, avoid: Seq<u64>) -> bool {
    &&& is_candidate(c, num_bits, modulo, pow2(num_bits as nat) as int)
    &&& forall|k: int| 0 <= k < avoid.len() ==> avoid[k] != c
    &&& forall|k: int| 0 <= k < before.len() ==> before[k] != c
}

/// `chain` holds, for each size of `bits` in turn, the largest prime of that
/// size that leaves one modulo `modulo` and occurs neither in `avoid` nor
/// earlier in the chain.
pub open spec fn is_generated_chain(chain: Seq<u64>, bits: Seq<usize>, modulo: int, avoid: Seq<u64>) -> bool {
    &&& chain.len() == bits.len()
    &&& forall|i: int|
        0 <= i < chain.len() ==> #[trigger] is_available(
            chain[i] as int,
            chain.take(i),
            bits[i] as int,
            modulo,
            avoid,
        )
    &&& forall|i: int, c: int|
        0 <= i < chain.len() && chain[i] < c ==> !#[trigger] is_available(
            c,
            chain.take(i),
            bits[i] as int,
            modulo,
            avoid,
        )
}

/// The chain cannot be continued: some prefix of the sizes has its chain, and
/// no prime is left for the next size.
pub open spec fn chain_exhausted(bits: Seq<usize>, modulo: int, avoid: Seq<u64>) -> bool {
    exists|prefix: Seq<u64>|
        prefix.len() < bits.len() && #[trigger] is_generated_chain(
            prefix,
            bits.take(prefix.len() as int),
            modulo,
            avoid,
        ) && forall|c: int|
            !is_available(c, prefix, bits[prefix.len() as int] as int, modulo, avoid)
}

/// Whether `v` holds `x`.
pub fn holds(v: &Vec<u64>, x: u64) -> (b: bool)
    ensures
        b == exists|k: int| 0 <= k < v@.len() && v@[k] == x,
{
    let mut i: usize = 0;
    while i < v.len()
        invariant
            i <= v@.len(),
            forall|k: int| 0 <= k < i ==> v@[k] != x,
        decreases v@.len() - i,
    {
        if v[i] == x {
            return true;
        }
        i += 1;
    }
    false
}

/// For each size of `bits` in turn, the largest prime of that size that leaves
/// one modulo `modulo` and occurs neither in `avoid` nor earlier in the chain;
/// nothing when the primes of some size run out.
pub fn generate_chain(bits: &[usize], modulo: u64, avoid: &Vec<u64>) -> (r: Option<Vec<u64>>)
    ensures
        match r {
            Some(chain) => is_generated_chain(chain@, bits@, modulo as int, avoid@),
            None => chain_exhausted(bits@, modulo as int, avoid@),
        },
{
    let count: usize = bits.len();
    let mut chain: Vec<u64> = Vec::with_capacity(count);
    let mut i: usize = 0;
    while i < count
        invariant
            i <= count,
            count == bits@.len(),
            chain@.len() == i,
            is_generated_chain(chain@, bits@.take(i as int), modulo as int, avoid@),
        decreases count - i,
    {
        let size: usize = bits[i];
        let ghost before = chain@;
        let mut upper: u64 = if 2 <= size && size <= 62 {
            power_of_two(size)
        } else {
            0
        };
        let mut found: Option<u64> = None;
        while found.is_none()
            invariant
                i < count,
                count == bits@.len(),
                size == bits@[i as int],
                chain@ == before,
                before.len() == i,
                2 <= size <= 62 ==> upper <= pow2(size as nat),
                forall|c: int|
                    upper <= c ==> !#[trigger] is_available(
                        c,
                        before,
                        size as int,
                        modulo as int,
                        avoid@,
                    ),
                found is Some ==> is_available(
                    found->0 as int,
                    before,
                    size as int,
                    modulo as int,
                    avoid@,
                ) && forall|c: int|
                    found->0 < c ==> !#[trigger] is_available(
                        c,
                        before,
                        size as int,
                        modulo as int,
                        avoid@,
                    ),
                is_generated_chain(before, bits@.take(i as int), modulo as int, avoid@),
            decreases upper + (if found is None { 1int } else { 0int }),
        {
            match generate_prime(size, modulo, upper) {
                None => {
                    proof {
                        assert forall|c: int|
                            !is_available(c, before, size as int, modulo as int, avoid@) by {
                            if is_candidate(c, size as int, modulo as int, pow2(size as nat) as int) {
                                if c < upper {
                                    assert(is_candidate(
                                        c,
                                        size as int,
                                        modulo as int,
                                        upper as int,
                                    ));
                                } else {
                                    assert(!is_available(
                                        c,
                                        before,
                                        size as int,
                                        modulo as int,
                                        avoid@,
                                    ));
                                }
                            }
                        }
                        assert(bits@.take(before.len() as int) == bits@.take(i as int));
                        assert(is_generated_chain(
                            before,
                            bits@.take(before.len() as int),
                            modulo as int,
                            avoid@,
                        ));
                    }
                    return None;
                },
                Some(p) => {
                    proof {
                        assert forall|c: int| p < c implies !#[trigger] is_available(
                            c,
                            before,
                            size as int,
                            modulo as int,
                            avoid@,
                        ) by {
                            if c < upper && is_candidate(
                                c,
                                size as int,
                                modulo as int,
                                pow2(size as nat) as int,
                            ) {
                                assert(is_candidate(c, size as int, modulo as int, upper as int));
                            }
                        }
                    }
                    if holds(avoid, p) || holds(&chain, p) {
                        upper = p;
                    } else {
                        found = Some(p);
                    }
                },
            }
        }
        let p: u64 = found.unwrap();
        chain.push(p);
        proof {
            let next = chain@;
            let part = bits@.take(i + 1);
            assert(next.take(i as int) =~= before);
            assert forall|k: int| 0 <= k < next.len() implies #[trigger] is_available(
                next[k] as int,
                next.take(k),
                part[k] as int,
                modulo as int,
                avoid@,
            ) by {
                if k < i {
                    assert(next.take(k) =~= before.take(k));
                    assert(is_available(
                        before[k] as int,
                        before.take(k),
                        bits@.take(i as int)[k] as int,
                        modulo as int,
                        avoid@,
                    ));
                }
            }
            assert forall|k: int, c: int| 0 <= k < next.len() && next[k] < c implies !#[trigger] is_available(
                c,
                next.take(k),
                part[k] as int,
                modulo as int,
                avoid@,
            ) by {
                if k < i {
                    assert(next.take(k) =~= before.take(k));
                    assert(!is_available(
                        c,
                        before.take(k),
                        bits@.take(i as int)[k] as int,
                        modulo as int,
                        avoid@,
                    ));
                }
            }
        }
        i += 1;
    }
    proof {
        assert(bits@.take(count as int) =~= bits@);
    }
    Some(chain)
}

/// Below `top`, the nearest number that leaves one modulo `m`.
proof fn lemma_leaves_one(top: int, m: int)
    requires
        top >= 1,
        m >= 2,
    ensures
        (top - (top - 1) % m) % m == 1,
        top - (top - 1) % m >= 1,
        top - (top - 1) % m <= top,
{
    let r = (top - 1) % m;
    let k = (top - 1) / m;
    lemma_fundamental_div_mod(top - 1, m);
    lemma_mod_bound(top - 1, m);
    assert(top - r == m * k + 1);
    lemma_fundamental_div_mod_converse(top - r, m, k, 1);
}

/// Two numbers that leave one modulo `m` are equal or at least `m` apart.
proof fn lemma_spacing(a: int, b: int, m: int)
    requires
        m >= 2,
        a % m == 1,
        b % m == 1,
        a < b,
    ensures
        a + m <= b,
{
    lemma_fundamental_div_mod(a, m);
    lemma_fundamental_div_mod(b, m);
    let x = a / m;
    let y = b / m;
    assert(x < y) by (nonlinear_arith)
        requires
            m * x + 1 < m * y + 1,
            m >= 2,
    ;
    assert(m * x + m <= m * y) by (nonlinear_arith)
        requires
            x + 1 <= y,
            m >= 2,
    ;
}

} // verus!
