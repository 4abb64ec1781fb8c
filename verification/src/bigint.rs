//! Natural numbers of any size, held as little-endian bytes and computed with
//! by `num_bigint`.

use crate::modulus::inverse_of;
use num_bigint::BigUint;
use num_bigint_dig::ModInverse;
use num_traits::ToPrimitive;
use vstd::arithmetic::div_mod::*;
use vstd::arithmetic::mul::*;
use vstd::arithmetic::power::*;
use vstd::prelude::*;

verus! {

/// The number that the bytes `b` spell, least significant byte first.
pub open spec fn le_value(b: Seq<u8>) -> nat
    decreases b.len(),
{
    if b.len() == 0 {
        0
    } else {
        le_value(b.drop_last()) + b.last() as nat * pow(256, (b.len() - 1) as nat) as nat
    }
}

/// The number of bits that it takes to write `n`.
pub open spec fn bit_length(n: nat) -> nat
    decreases n,
{
    if n == 0 {
        0
    } else {
        1 + bit_length(n / 2)
    }
}

/// A natural number of any size.
pub struct BigNat {
    bytes: Vec<u8>,
}

impl View for BigNat {
    type V = nat;

    closed spec fn view(&self) -> nat {
        le_value(self.bytes@)
    }
}

impl Clone for BigNat {
    /// The same number.
    fn clone(&self) -> (r: BigNat)
        ensures
            r@ == self@,
    {
        BigNat { bytes: self.bytes.clone() }
    }
}

impl BigNat {
    /// The number that `bytes` spell, least significant byte first.
    pub fn from_bytes_le(bytes: Vec<u8>) -> (r: BigNat)
        ensures
            r@ == le_value(bytes@),
    {
        BigNat { bytes }
    }

    /// Bytes that spell the number, least significant byte first.
    pub fn to_bytes_le(&self) -> (bytes: Vec<u8>)
        ensures
            le_value(bytes@) == self@,
    {
        self.bytes.clone()
    }

    /// The number `x`.
    pub fn from_u64(x: u64) -> (r: BigNat)
        ensures
            r@ == x,
    {
        let mut bytes: Vec<u8> = Vec::new();
        let mut rest: u64 = x;
        proof {
            lemma_pow0(256);
        }
        while rest != 0
            invariant
                x == le_value(bytes@) + pow(256, bytes@.len()) * rest,
                pow(256, bytes@.len()) >= 1,
            decreases rest,
        {
            let d: u8 = (rest % 256) as u8;
            proof {
                let n = bytes@.len();
                let p = pow(256, n);
                assert(bytes@.push(d).drop_last() =~= bytes@);
                lemma_pow_adds(256, n, 1);
                lemma_pow1(256);
                assert(pow(256, n + 1) == p * 256);
                assert(p * rest == d * p + (p * 256) * (rest / 256)) by (nonlinear_arith)
                    requires
                        rest == 256 * (rest / 256) + d,
                ;
                lemma_mul_strictly_positive(p, 256);
            }
            bytes.push(d);
            rest = rest / 256;
        }
        proof {
            assert(pow(256, bytes@.len()) * 0 == 0);
        }
        BigNat { bytes }
    }

    /// The product of two numbers.
    pub fn mul(&self, other: &BigNat) -> (r: BigNat)
        ensures
            r@ == self@ * other@,
    {
        BigNat { bytes: big_mul(&self.bytes, &other.bytes) }
    }

    /// The sum of two numbers.
    pub fn add(&self, other: &BigNat) -> (r: BigNat)
        ensures
            r@ == self@ + other@,
    {
        BigNat { bytes: big_add(&self.bytes, &other.bytes) }
    }

    /// The quotient of two numbers, rounded down.
    pub fn div(&self, other: &BigNat) -> (r: BigNat)
        requires
            other@ > 0,
        ensures
            r@ == self@ / other@,
    {
        BigNat { bytes: big_div(&self.bytes, &other.bytes) }
    }

    /// The remainder of the division by another number.
    pub fn rem(&self, other: &BigNat) -> (r: BigNat)
        requires
            other@ > 0,
        ensures
            r@ == self@ % other@,
    {
        BigNat { bytes: big_rem(&self.bytes, &other.bytes) }
    }

    /// The remainder of the division by a word.
    pub fn rem_u64(&self, m: u64) -> (r: u64)
        requires
            m > 0,
        ensures
            r == self@ % (m as nat),
    {
        big_rem_u64(&self.bytes, m)
    }

    /// The number of bits that it takes to write the number.
    pub fn bits(&self) -> (n: u64)
        ensures
            n == bit_length(self@),
    {
        big_bits(&self.bytes)
    }

    /// An inverse of the number modulo `m`, where one exists.
    pub fn mod_inverse(&self, m: &BigNat) -> (r: Option<BigNat>)
        requires
            m@ >= 2,
        ensures
            match r {
                Some(x) => inverse_of(self@ as int, x@ as int, m@ as int),
                None => forall|y: int| !#[trigger] inverse_of(self@ as int, y, m@ as int),
            },
    {
        match big_mod_inverse(&self.bytes, &m.bytes) {
            Some(bytes) => Some(BigNat { bytes }),
            None => None,
        }
    }
}

/// `BigUint` multiplication: bytes of the product of the two numbers.
#[verifier::external_body]
fn big_mul(a: &Vec<u8>, b: &Vec<u8>) -> (r: Vec<u8>)
    ensures
        le_value(r@) == le_value(a@) * le_value(b@),
{
    (BigUint::from_bytes_le(a) * BigUint::from_bytes_le(b)).to_bytes_le()
}

/// `BigUint` addition: bytes of the sum of the two numbers.
#[verifier::external_body]
fn big_add(a: &Vec<u8>, b: &Vec<u8>) -> (r: Vec<u8>)
    ensures
        le_value(r@) == le_value(a@) + le_value(b@),
{
    (BigUint::from_bytes_le(a) + BigUint::from_bytes_le(b)).to_bytes_le()
}

/// `BigUint` division, which rounds down and panics on a zero divisor: bytes
/// of the quotient.
#[verifier::external_body]
fn big_div(a: &Vec<u8>, b: &Vec<u8>) -> (r: Vec<u8>)
    requires
        le_value(b@) > 0,
    ensures
        le_value(r@) == le_value(a@) / le_value(b@),
{
    (BigUint::from_bytes_le(a) / BigUint::from_bytes_le(b)).to_bytes_le()
}

/// `BigUint` remainder, which panics on a zero divisor: bytes of the remainder.
#[verifier::external_body]
fn big_rem(a: &Vec<u8>, b: &Vec<u8>) -> (r: Vec<u8>)
    requires
        le_value(b@) > 0,
    ensures
        le_value(r@) == le_value(a@) % le_value(b@),
{
    (BigUint::from_bytes_le(a) % BigUint::from_bytes_le(b)).to_bytes_le()
}

/// `BigUint` remainder by a word, which panics on a zero divisor: the
/// remainder, which fits a word.
#[verifier::external_body]
fn big_rem_u64(a: &Vec<u8>, m: u64) -> (r: u64)
    requires
        m > 0,
    ensures
        r == le_value(a@) % (m as nat),
{
    (BigUint::from_bytes_le(a) % m).to_u64().unwrap()
}

/// `BigUint::bits`: the fewest bits that express the number, zero for zero.
#[verifier::external_body]
fn big_bits(a: &Vec<u8>) -> (n: u64)
    ensures
        n == bit_length(le_value(a@)),
{
    BigUint::from_bytes_le(a).bits()
}

/// `num_bigint_dig`'s `mod_inverse`: bytes of a number whose product with
/// `a` leaves one modulo `m`, or nothing when `a` has no inverse modulo `m`.
#[verifier::external_body]
fn big_mod_inverse(a: &Vec<u8>, m: &Vec<u8>) -> (r: Option<Vec<u8>>)
    requires
        le_value(m@) >= 2,
    ensures
        match r {
            Some(x) => inverse_of(le_value(a@) as int, le_value(x@) as int, le_value(m@) as int),
            None => forall|y: int|
                !#[trigger] inverse_of(le_value(a@) as int, y, le_value(m@) as int),
        },
{
    let a = num_bigint_dig::BigUint::from_bytes_le(a);
    let m = num_bigint_dig::BigUint::from_bytes_le(m);
    a.mod_inverse(&m).map(|x| x.to_bytes_le().1)
}

} // verus!
