//! Secret keys: polynomials with coefficients in `{-1, 0, 1}`.

use crate::parameters::BfvParameters;
use crate::sampling::{draw_words, ternary_from_word, ternary_of};
use rand_chacha::ChaCha8Rng;
use vstd::prelude::*;

verus! {

/// Every entry of `v` is minus one, zero or one.
pub open spec fn is_ternary(v: Seq<i64>) -> bool {
    forall|i: int| 0 <= i < v.len() ==> -1 <= (#[trigger] v[i]) <= 1
}

/// The ternary digits that the words `words` give.
pub open spec fn ternary_values(words: Seq<u64>) -> Seq<i64> {
    Seq::new(words.len(), |i: int| ternary_of(words[i]) as i64)
}

/// A secret key.
pub struct SecretKey {
    coefficients: Vec<i64>,
}

impl SecretKey {
    #[verifier::type_invariant]
    spec fn type_inv(self) -> bool {
        is_ternary(self.coefficients@)
    }

    /// The coefficients of the key.
    pub closed spec fn values(&self) -> Seq<i64> {
        self.coefficients@
    }

    /// The key with the given coefficients, or nothing when one of them is
    /// not minus one, zero or one.
    pub fn new(coefficients: Vec<i64>) -> (r: Option<SecretKey>)
        ensures
            r is Some <==> is_ternary(coefficients@),
            r is Some ==> r->0.values() == coefficients@,
    {
        let n: usize = coefficients.len();
        let mut i: usize = 0;
        while i < n
            invariant
                i <= n,
                n == coefficients@.len(),
                forall|k: int| 0 <= k < i ==> -1 <= (#[trigger] coefficients@[k]) <= 1,
            decreases n - i,
        {
            if coefficients[i] < -1 || coefficients[i] > 1 {
                return None;
            }
            i += 1;
        }
        Some(SecretKey { coefficients })
    }

    /// The key whose coefficients the words give, one word for each.
    pub fn from_words(words: &Vec<u64>) -> (r: SecretKey)
        ensures
            r.values() == ternary_values(words@),
            is_ternary(r.values()),
    {
        let n: usize = words.len();
        let mut coefficients: Vec<i64> = Vec::with_capacity(n);
        let mut i: usize = 0;
        while i < n
            invariant
                i <= n,
                n == words@.len(),
                coefficients@.len() == i,
                forall|k: int| 0 <= k < i ==> (#[trigger] coefficients@[k]) == ternary_values(words@)[k],
                forall|k: int| 0 <= k < i ==> -1 <= (#[trigger] coefficients@[k]) <= 1,
            decreases n - i,
        {
            coefficients.push(ternary_from_word(words[i]));
            i += 1;
        }
        proof {
            assert(coefficients@ =~= ternary_values(words@));
        }
        SecretKey { coefficients }
    }

    /// A key for the parameters with coefficients drawn from `rng`.
    pub fn random(params: &BfvParameters, rng: &mut ChaCha8Rng) -> (r: SecretKey)
        ensures
            r.values().len() == params.n(),
            is_ternary(r.values()),
    {
        let words = draw_words(rng, params.degree());
        SecretKey::from_words(&words)
    }

    /// The coefficients of the key.
    pub fn coefficients(&self) -> (c: &Vec<i64>)
        ensures
            c@ == self.values(),
            is_ternary(c@),
    {
        proof {
            use_type_invariant(self);
        }
        &self.coefficients
    }
}

} // verus!
