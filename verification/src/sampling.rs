//! Random words from a ChaCha generator, and what the library makes of them.

use crate::modulus::Modulus;
use rand::Rng;
use rand::RngCore;
use rand::SeedableRng;
use rand_chacha::ChaCha8Rng;
use vstd::prelude::*;

verus! {

/// `rand_chacha::ChaCha8Rng`: the generator that the library draws from.
/// Nothing is known of its state.
#[verifier::external_type_specification]
#[verifier::external_body]
pub struct ExChaCha8Rng(ChaCha8Rng);

/// The first `count` words of the stream that the ChaCha generator with
/// eight rounds gives on the seed `seed`.
pub uninterp spec fn seeded_words(seed: Seq<u8>, count: nat) -> Seq<u64>;

/// `ChaCha8Rng::from_seed` and `Rng::fill` on a slice of words: the first
/// `count` words of the generator's stream on `seed`. The stream is a function
/// of the seed alone, on every machine.
#[verifier::external_body]
pub(crate) fn words_from_seed(seed: &[u8; 32], count: usize) -> (words: Vec<u64>)
    ensures
        words@ == seeded_words(seed@, count as nat),
        words@.len() == count,
{
    let mut rng = ChaCha8Rng::from_seed(*seed);
    let mut words = vec![0u64; count];
    rng.fill(&mut words[..]);
    words
}

/// `Rng::fill` on a slice of words: the next `count` words of the generator.
#[verifier::external_body]
pub(crate) fn draw_words(rng: &mut ChaCha8Rng, count: usize) -> (words: Vec<u64>)
    ensures
        words@.len() == count,
{
    let mut words = vec![0u64; count];
    rng.fill(&mut words[..]);
    words
}

/// `RngCore::fill_bytes` on 32 bytes: a fresh seed from the generator.
#[verifier::external_body]
pub(crate) fn draw_seed(rng: &mut ChaCha8Rng) -> (seed: [u8; 32])
{
    let mut seed = [0u8; 32];
    rng.fill_bytes(&mut seed);
    seed
}

/// The residue modulo `q` of the double word with the halves `hi` and `lo`.
pub open spec fn wide_residue(hi: u64, lo: u64, q: int) -> u64 {
    ((hi * 0x1_0000_0000_0000_0000 + lo) % q) as u64
}

/// The number of ones among the lowest `k` binary digits of `w`.
pub open spec fn ones(w: nat, k: nat) -> nat
    decreases k,
{
    if k == 0 {
        0
    } else {
        w % 2 + ones(w / 2, (k - 1) as nat)
    }
}

/// The error that the word `w` gives for the bound `k`: the ones among the low
/// `k` digits of its low half less the ones among the low `k` digits of its
/// high half.
pub open spec fn error_of(w: u64, k: nat) -> int {
    ones((w % 0x1_0000_0000) as nat, k) - ones((w / 0x1_0000_0000) as nat, k)
}

/// The ternary digit that the word `w` gives: its residue modulo three less one.
pub open spec fn ternary_of(w: u64) -> int {
    w % 3 - 1
}

/// At most `k` of the lowest `k` digits are ones.
pub proof fn lemma_ones_bound(w: nat, k: nat)
    ensures
        ones(w, k) <= k,
    decreases k,
{
    if k > 0 {
        lemma_ones_bound(w / 2, (k - 1) as nat);
    }
}

/// An error lies within its bound.
pub proof fn lemma_error_bound(w: u64, k: nat)
    ensures
        -(k as int) <= error_of(w, k) <= k,
{
    lemma_ones_bound((w % 0x1_0000_0000) as nat, k);
    lemma_ones_bound((w / 0x1_0000_0000) as nat, k);
}

/// A residue that is uniform up to a bias below `q / 2^128` when the two
/// words are uniform.
pub fn uniform_residue(hi: u64, lo: u64, q: &Modulus) -> (r: u64)
    ensures
        r == wide_residue(hi, lo, q.value()),
        r < q.value(),
{
    let wide: u128 = (hi as u128) * 0x1_0000_0000_0000_0000u128 + (lo as u128);
    q.reduce_u128(wide)
}

/// Counts the ones among the lowest `k` binary digits of `w`.
fn count_ones(w: u64, k: u32) -> (c: u32)
    requires
        k <= 32,
    ensures
        c == ones(w as nat, k as nat),
        c <= k,
    decreases k,
{
    if k == 0 {
        0
    } else {
        let rest: u32 = count_ones(w / 2, k - 1);
        (w % 2) as u32 + rest
    }
}

/// A sample of the centred binomial distribution with bound `bound` from one
/// uniform word.
pub fn error_from_word(w: u64, bound: u32) -> (e: i64)
    requires
        bound <= 32,
    ensures
        e == error_of(w, bound as nat),
        -(bound as int) <= e <= bound,
{
    let plus: u32 = count_ones(w % 0x1_0000_0000, bound);
    let minus: u32 = count_ones(w / 0x1_0000_0000, bound);
    (plus as i64) - (minus as i64)
}

/// A ternary digit from one uniform word.
pub fn ternary_from_word(w: u64) -> (t: i64)
    ensures
        t == ternary_of(w),
        -1 <= t <= 1,
{
    (w % 3) as i64 - 1
}

} // verus!
