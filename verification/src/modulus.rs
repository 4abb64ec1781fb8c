//! Arithmetic modulo one machine-word modulus.

use vstd::arithmetic::div_mod::*;
use vstd::arithmetic::mul::*;
use vstd::arithmetic::power::*;
use vstd::prelude::*;

verus! {

/// Moduli lie below this bound, so that sums of two residues fit a word.
pub const MODULUS_LIMIT: u64 = 0x4000_0000_0000_0000;

/// The representative of `a` modulo `q` that lies in `(-q/2, q/2]`.
pub open spec fn centered(a: int, q: int) -> int {
    if 2 * (a % q) > q {
        a % q - q
    } else {
        a % q
    }
}

/// `x` is a multiplicative inverse of `a` modulo `q`.
pub open spec fn inverse_of(a: int, x: int, q: int) -> bool {
    (a * x) % q == 1
}

/// `a` has no multiplicative inverse modulo `q`.
pub open spec fn no_inverse(a: int, q: int) -> bool {
    forall|y: int| !#[trigger] inverse_of(a, y, q)
}

/// The product of the numbers of `s`.
pub open spec fn seq_product(s: Seq<int>) -> int
    decreases s.len(),
{
    if s.len() == 0 {
        1
    } else {
        seq_product(s.drop_last()) * s.last()
    }
}

/// Every number of `s` divides the product of `s`.
pub proof fn lemma_product_multiple(s: Seq<int>, i: int)
    requires
        0 <= i < s.len(),
    ensures
        exists|f: int| seq_product(s) == #[trigger] (s[i] * f),
    decreases s.len(),
{
    if i == s.len() - 1 {
        let f = seq_product(s.drop_last());
        assert(seq_product(s) == s[i] * f) by (nonlinear_arith)
            requires
                seq_product(s) == f * s[i],
        ;
    } else {
        lemma_product_multiple(s.drop_last(), i);
        let f0 = choose|f: int| seq_product(s.drop_last()) == #[trigger] (s.drop_last()[i] * f);
        let f = f0 * s.last();
        assert(seq_product(s) == s[i] * f) by (nonlinear_arith)
            requires
                seq_product(s) == (s[i] * f0) * s.last(),
                f == f0 * s.last(),
        ;
    }
}

/// The product of numbers that are at least two is at least each of them.
pub proof fn lemma_product_bound(s: Seq<int>, i: int)
    requires
        0 <= i < s.len(),
        forall|k: int| 0 <= k < s.len() ==> (#[trigger] s[k]) >= 2,
    ensures
        seq_product(s) >= s[i],
        seq_product(s) >= 1,
    decreases s.len(),
{
    let rest = s.drop_last();
    if rest.len() == 0 {
        assert(seq_product(rest) == 1);
        assert(1 * s.last() == s.last());
    } else if i == s.len() - 1 {
        lemma_product_bound(rest, 0);
        assert(seq_product(rest) * s.last() >= s.last()) by (nonlinear_arith)
            requires
                seq_product(rest) >= 1,
                s.last() >= 2,
        ;
    } else {
        lemma_product_bound(rest, i);
        assert(seq_product(rest) * s.last() >= seq_product(rest)) by (nonlinear_arith)
            requires
                seq_product(rest) >= 1,
                s.last() >= 2,
        ;
    }
}

/// A sequence of words as integers.
pub open spec fn as_ints(v: Seq<u64>) -> Seq<int> {
    Seq::new(v.len(), |i: int| v[i] as int)
}

/// `v` holds residues modulo `q`.
pub open spec fn reduced(v: Seq<u64>, q: int) -> bool {
    forall|i: int| 0 <= i < v.len() ==> (#[trigger] v[i]) < q
}

/// Entry by entry, the sum of `a` and `b` modulo `q`.
pub open spec fn add_seq(a: Seq<u64>, b: Seq<u64>, q: int) -> Seq<u64> {
    Seq::new(a.len(), |i: int| ((a[i] + b[i]) % q) as u64)
}

/// Entry by entry, the difference of `a` and `b` modulo `q`.
pub open spec fn sub_seq(a: Seq<u64>, b: Seq<u64>, q: int) -> Seq<u64> {
    Seq::new(a.len(), |i: int| ((a[i] - b[i]) % q) as u64)
}

/// Entry by entry, the product of `a` and `b` modulo `q`.
pub open spec fn mul_seq(a: Seq<u64>, b: Seq<u64>, q: int) -> Seq<u64> {
    Seq::new(a.len(), |i: int| ((a[i] * b[i]) % q) as u64)
}

/// Entry by entry, the additive inverse of `a` modulo `q`.
pub open spec fn neg_seq(a: Seq<u64>, q: int) -> Seq<u64> {
    Seq::new(a.len(), |i: int| ((-(a[i] as int)) % q) as u64)
}

/// Every entry of `a` times `c` modulo `q`.
pub open spec fn scale_seq(a: Seq<u64>, c: int, q: int) -> Seq<u64> {
    Seq::new(a.len(), |i: int| ((a[i] * c) % q) as u64)
}

/// Every entry of `a` reduced modulo `q`.
pub open spec fn reduce_seq(a: Seq<u64>, q: int) -> Seq<u64> {
    Seq::new(a.len(), |i: int| ((a[i] as int) % q) as u64)
}

/// Every signed entry of `a` reduced to its residue in `[0, q)`.
pub open spec fn reduce_i64_seq(a: Seq<i64>, q: int) -> Seq<u64> {
    Seq::new(a.len(), |i: int| ((a[i] as int) % q) as u64)
}

/// A modulus `q` with `2 <= q < 2^62`.
#[derive(Clone, Copy)]
pub struct Modulus {
    q: u64,
}

impl Modulus {
    #[verifier::type_invariant]
    spec fn type_inv(self) -> bool {
        self.wf()
    }

    /// The modulus as a mathematical integer.
    pub closed spec fn value(&self) -> int {
        self.q as int
    }

    /// The modulus is in range.
    pub open spec fn wf(&self) -> bool {
        2 <= self.value() < MODULUS_LIMIT
    }

    /// Builds the modulus `q`, or nothing when `q` is out of range.
    pub fn new(q: u64) -> (r: Option<Modulus>)
        ensures
            r is Some <==> 2 <= q < MODULUS_LIMIT,
            r is Some ==> r->0.value() == q && r->0.wf(),
    {
        if 2 <= q && q < MODULUS_LIMIT {
            Some(Modulus { q })
        } else {
            None
        }
    }

    /// The modulus as a machine word.
    pub fn modulus(&self) -> (q: u64)
        ensures
            q == self.value(),
            self.wf(),
    {
        proof {
            use_type_invariant(self);
        }
        self.q
    }

    /// Reduces a word.
    pub fn reduce(&self, x: u64) -> (r: u64)
        ensures
            r == (x as int) % self.value(),
            r < self.value(),
    {
        proof {
            use_type_invariant(self);
        }
        x % self.q
    }

    /// Reduces a double word.
    pub fn reduce_u128(&self, x: u128) -> (r: u64)
        ensures
            r == (x as int) % self.value(),
            r < self.value(),
    {
        proof {
            use_type_invariant(self);
        }
        (x % (self.q as u128)) as u64
    }

    /// Reduces a signed word to its residue in `[0, q)`.
    pub fn reduce_i64(&self, x: i64) -> (r: u64)
        ensures
            r == (x as int) % self.value(),
            r < self.value(),
    {
        proof {
            use_type_invariant(self);
        }
        let q: i128 = self.q as i128;
        let x: i128 = x as i128;
        if x >= 0 {
            (x % q) as u64
        } else {
            let m: i128 = (-x) % q;
            proof {
                lemma_neg_residue(x as int, q as int);
            }
            if m == 0 {
                0
            } else {
                (q - m) as u64
            }
        }
    }

    /// Sum of two residues.
    pub fn add(&self, a: u64, b: u64) -> (r: u64)
        requires
            a < self.value(),
            b < self.value(),
        ensures
            r == (a + b) % self.value(),
            r < self.value(),
    {
        proof {
            use_type_invariant(self);
        }
        let s: u64 = a + b;
        if s >= self.q {
            proof {
                lemma_mod_sub_multiples_vanish(s as int, self.q as int);
                lemma_small_mod((s - self.q) as nat, self.q as nat);
            }
            s - self.q
        } else {
            proof {
                lemma_small_mod(s as nat, self.q as nat);
            }
            s
        }
    }

    /// Difference of two residues.
    pub fn sub(&self, a: u64, b: u64) -> (r: u64)
        requires
            a < self.value(),
            b < self.value(),
        ensures
            r == (a - b) % self.value(),
            r < self.value(),
    {
        proof {
            use_type_invariant(self);
        }
        if a >= b {
            proof {
                lemma_small_mod((a - b) as nat, self.q as nat);
            }
            a - b
        } else {
            proof {
                lemma_mod_add_multiples_vanish(a - b, self.q as int);
                lemma_small_mod((a + self.q - b) as nat, self.q as nat);
            }
            a + self.q - b
        }
    }

    /// Additive inverse of a residue.
    pub fn neg(&self, a: u64) -> (r: u64)
        requires
            a < self.value(),
        ensures
            r == (-(a as int)) % self.value(),
            r < self.value(),
    {
        proof {
            use_type_invariant(self);
        }
        if a == 0 {
            proof {
                lemma_small_mod(0, self.q as nat);
            }
            0
        } else {
            proof {
                lemma_mod_add_multiples_vanish(-(a as int), self.q as int);
                lemma_small_mod((self.q - a) as nat, self.q as nat);
            }
            self.q - a
        }
    }

    /// Product of two residues.
    pub fn mul(&self, a: u64, b: u64) -> (r: u64)
        requires
            a < self.value(),
            b < self.value(),
        ensures
            r == (a * b) % self.value(),
            r < self.value(),
    {
        proof {
            use_type_invariant(self);
            lemma_mul_upper_bound(a as int, self.q as int, b as int, self.q as int);
            lemma_mul_upper_bound(
                self.q as int,
                MODULUS_LIMIT as int,
                self.q as int,
                MODULUS_LIMIT as int,
            );
        }
        let p: u128 = (a as u128) * (b as u128);
        (p % (self.q as u128)) as u64
    }

    /// `a` raised to the power `e`.
    pub fn pow(&self, a: u64, e: u64) -> (r: u64)
        requires
            a < self.value(),
        ensures
            r == pow(a as int, e as nat) % self.value(),
            r < self.value(),
        decreases e,
    {
        proof {
            use_type_invariant(self);
        }
        if e == 0 {
            proof {
                lemma_pow0(a as int);
                lemma_small_mod(1, self.q as nat);
            }
            1
        } else {
            let h: u64 = self.pow(a, e / 2);
            let s: u64 = self.mul(h, h);
            proof {
                let q = self.q as int;
                let ph = pow(a as int, (e / 2) as nat);
                lemma_pow_adds(a as int, (e / 2) as nat, (e / 2) as nat);
                lemma_mul_mod_noop_general(ph, ph, q);
                assert(s == pow(a as int, (2 * (e / 2)) as nat) % q);
                if e % 2 == 1 {
                    lemma_pow_adds(a as int, (2 * (e / 2)) as nat, 1);
                    lemma_pow1(a as int);
                    lemma_mul_mod_noop_general(pow(a as int, (2 * (e / 2)) as nat), a as int, q);
                    lemma_small_mod(a as nat, q as nat);
                }
            }
            if e % 2 == 1 {
                self.mul(s, a)
            } else {
                s
            }
        }
    }

    /// The representative of a residue in `(-q/2, q/2]`.
    pub fn center(&self, a: u64) -> (r: i64)
        requires
            a < self.value(),
        ensures
            r == centered(a as int, self.value()),
    {
        proof {
            use_type_invariant(self);
            lemma_small_mod(a as nat, self.q as nat);
        }
        if a > self.q / 2 {
            (a as i64) - (self.q as i64)
        } else {
            a as i64
        }
    }

    /// Multiplicative inverse of a residue, where one exists.
    pub fn inv(&self, a: u64) -> (r: Option<u64>)
        requires
            a < self.value(),
        ensures
            match r {
                Some(x) => x < self.value() && inverse_of(a as int, x as int, self.value()),
                None => forall|y: int| !#[trigger] inverse_of(a as int, y, self.value()),
            },
    {
        proof {
            use_type_invariant(self);
        }
        let q: u64 = self.q;
        let mut r0: u64 = q;
        let mut r1: u64 = a;
        let mut t0: u64 = 0;
        let mut t1: u64 = 1;
        let ghost mut ca: int = 1;
        let ghost mut cb: int = 0;
        let ghost mut cc: int = 0;
        let ghost mut cd: int = 1;
        proof {
            lemma_small_mod(a as nat, q as nat);
            lemma_small_mod(1, q as nat);
            lemma_small_mod(0, q as nat);
            lemma_mod_self_0(q as int);
            assert(0 * a == 0);
            assert(1 * a == a);
        }
        while r1 != 0
            invariant
                q == self.value(),
                2 <= q < MODULUS_LIMIT,
                r0 <= q,
                r1 < q,
                t0 < q,
                t1 < q,
                (t0 * a) % (q as int) == (r0 as int) % (q as int),
                (t1 * a) % (q as int) == (r1 as int) % (q as int),
                q == ca * r0 + cb * r1,
                a == cc * r0 + cd * r1,
                r0 > 0,
            decreases r1,
        {
            let k: u64 = r0 / r1;
            let r2: u64 = r0 % r1;
            let km: u64 = k % q;
            let t2: u64 = self.sub(t0, self.mul(km, t1));
            proof {
                let qi = q as int;
                lemma_fundamental_div_mod(r0 as int, r1 as int);
                assert(r0 == r1 * k + r2);
                lemma_step_combination(ca, cb, r0 as int, r1 as int, k as int, r2 as int);
                lemma_step_combination(cc, cd, r0 as int, r1 as int, k as int, r2 as int);
                lemma_step_residue(
                    t0 as int,
                    t1 as int,
                    t2 as int,
                    a as int,
                    k as int,
                    r0 as int,
                    r1 as int,
                    r2 as int,
                    qi,
                );
                let na = ca * k + cb;
                let nc = cc * k + cd;
                cb = ca;
                ca = na;
                cd = cc;
                cc = nc;
            }
            r0 = r1;
            r1 = r2;
            t0 = t1;
            t1 = t2;
        }
        if r0 == 1 {
            proof {
                lemma_small_mod(1, q as nat);
                lemma_mul_is_commutative(t0 as int, a as int);
            }
            Some(t0)
        } else {
            proof {
                assert(q == ca * r0);
                assert(a == cc * r0);
                assert forall|y: int| !#[trigger] inverse_of(a as int, y, q as int) by {
                    lemma_no_inverse(a as int, q as int, r0 as int, ca, cc, y);
                }
            }
            None
        }
    }

    /// Adds `b` to `a`, entry by entry.
    pub fn add_vec(&self, a: &mut Vec<u64>, b: &Vec<u64>)
        requires
            old(a)@.len() == b@.len(),
            reduced(old(a)@, self.value()),
            reduced(b@, self.value()),
        ensures
            final(a)@ == add_seq(old(a)@, b@, self.value()),
            reduced(final(a)@, self.value()),
    {
        let n: usize = a.len();
        let mut i: usize = 0;
        while i < n
            invariant
                i <= n,
                n == a@.len(),
                n == b@.len(),
                a@.len() == old(a)@.len(),
                reduced(old(a)@, self.value()),
                reduced(b@, self.value()),
                forall|k: int| 0 <= k < i ==> (#[trigger] a@[k]) == add_seq(old(a)@, b@, self.value())[k],
                forall|k: int| 0 <= k < i ==> (#[trigger] a@[k]) < self.value(),
                forall|k: int| i <= k < n ==> (#[trigger] a@[k]) == old(a)@[k],
            decreases n - i,
        {
            let v: u64 = self.add(a[i], b[i]);
            a.set(i, v);
            i += 1;
        }
        proof {
            assert(a@ =~= add_seq(old(a)@, b@, self.value()));
        }
    }

    /// Subtracts `b` from `a`, entry by entry.
    pub fn sub_vec(&self, a: &mut Vec<u64>, b: &Vec<u64>)
        requires
            old(a)@.len() == b@.len(),
            reduced(old(a)@, self.value()),
            reduced(b@, self.value()),
        ensures
            final(a)@ == sub_seq(old(a)@, b@, self.value()),
            reduced(final(a)@, self.value()),
    {
        let n: usize = a.len();
        let mut i: usize = 0;
        while i < n
            invariant
                i <= n,
                n == a@.len(),
                n == b@.len(),
                a@.len() == old(a)@.len(),
                reduced(old(a)@, self.value()),
                reduced(b@, self.value()),
                forall|k: int| 0 <= k < i ==> (#[trigger] a@[k]) == sub_seq(old(a)@, b@, self.value())[k],
                forall|k: int| 0 <= k < i ==> (#[trigger] a@[k]) < self.value(),
                forall|k: int| i <= k < n ==> (#[trigger] a@[k]) == old(a)@[k],
            decreases n - i,
        {
            let v: u64 = self.sub(a[i], b[i]);
            a.set(i, v);
            i += 1;
        }
        proof {
            assert(a@ =~= sub_seq(old(a)@, b@, self.value()));
        }
    }

    /// Multiplies `a` by `b`, entry by entry.
    pub fn mul_vec(&self, a: &mut Vec<u64>, b: &Vec<u64>)
        requires
            old(a)@.len() == b@.len(),
            reduced(old(a)@, self.value()),
            reduced(b@, self.value()),
        ensures
            final(a)@ == mul_seq(old(a)@, b@, self.value()),
            reduced(final(a)@, self.value()),
    {
        let n: usize = a.len();
        let mut i: usize = 0;
        while i < n
            invariant
                i <= n,
                n == a@.len(),
                n == b@.len(),
                a@.len() == old(a)@.len(),
                reduced(old(a)@, self.value()),
                reduced(b@, self.value()),
                forall|k: int| 0 <= k < i ==> (#[trigger] a@[k]) == mul_seq(old(a)@, b@, self.value())[k],
                forall|k: int| 0 <= k < i ==> (#[trigger] a@[k]) < self.value(),
                forall|k: int| i <= k < n ==> (#[trigger] a@[k]) == old(a)@[k],
            decreases n - i,
        {
            let v: u64 = self.mul(a[i], b[i]);
            a.set(i, v);
            i += 1;
        }
        proof {
            assert(a@ =~= mul_seq(old(a)@, b@, self.value()));
        }
    }

    /// Replaces every entry of `a` by its additive inverse.
    pub fn neg_vec(&self, a: &mut Vec<u64>)
        requires
            reduced(old(a)@, self.value()),
        ensures
            final(a)@ == neg_seq(old(a)@, self.value()),
            reduced(final(a)@, self.value()),
    {
        let n: usize = a.len();
        let mut i: usize = 0;
        while i < n
            invariant
                i <= n,
                n == a@.len(),
                a@.len() == old(a)@.len(),
                reduced(old(a)@, self.value()),
                forall|k: int| 0 <= k < i ==> (#[trigger] a@[k]) == neg_seq(old(a)@, self.value())[k],
                forall|k: int| 0 <= k < i ==> (#[trigger] a@[k]) < self.value(),
                forall|k: int| i <= k < n ==> (#[trigger] a@[k]) == old(a)@[k],
            decreases n - i,
        {
            let v: u64 = self.neg(a[i]);
            a.set(i, v);
            i += 1;
        }
        proof {
            assert(a@ =~= neg_seq(old(a)@, self.value()));
        }
    }

    /// Multiplies every entry of `a` by the residue `c`.
    pub fn scalar_mul_vec(&self, a: &mut Vec<u64>, c: u64)
        requires
            c < self.value(),
            reduced(old(a)@, self.value()),
        ensures
            final(a)@ == scale_seq(old(a)@, c as int, self.value()),
            reduced(final(a)@, self.value()),
    {
        let n: usize = a.len();
        let mut i: usize = 0;
        while i < n
            invariant
                i <= n,
                n == a@.len(),
                a@.len() == old(a)@.len(),
                c < self.value(),
                reduced(old(a)@, self.value()),
                forall|k: int|
                    0 <= k < i ==> (#[trigger] a@[k]) == scale_seq(old(a)@, c as int, self.value())[k],
                forall|k: int| 0 <= k < i ==> (#[trigger] a@[k]) < self.value(),
                forall|k: int| i <= k < n ==> (#[trigger] a@[k]) == old(a)@[k],
            decreases n - i,
        {
            let v: u64 = self.mul(a[i], c);
            a.set(i, v);
            i += 1;
        }
        proof {
            assert(a@ =~= scale_seq(old(a)@, c as int, self.value()));
        }
    }

    /// Reduces every entry of `a`.
    pub fn reduce_vec(&self, a: &mut Vec<u64>)
        ensures
            final(a)@ == reduce_seq(old(a)@, self.value()),
            reduced(final(a)@, self.value()),
    {
        let n: usize = a.len();
        let mut i: usize = 0;
        while i < n
            invariant
                i <= n,
                n == a@.len(),
                a@.len() == old(a)@.len(),
                forall|k: int| 0 <= k < i ==> (#[trigger] a@[k]) == reduce_seq(old(a)@, self.value())[k],
                forall|k: int| 0 <= k < i ==> (#[trigger] a@[k]) < self.value(),
                forall|k: int| i <= k < n ==> (#[trigger] a@[k]) == old(a)@[k],
            decreases n - i,
        {
            let v: u64 = self.reduce(a[i]);
            a.set(i, v);
            i += 1;
        }
        proof {
            assert(a@ =~= reduce_seq(old(a)@, self.value()));
        }
    }

    /// The residues of the signed entries of `a`.
    pub fn reduce_vec_i64(&self, a: &Vec<i64>) -> (r: Vec<u64>)
        ensures
            r@ == reduce_i64_seq(a@, self.value()),
            reduced(r@, self.value()),
    {
        let n: usize = a.len();
        let mut r: Vec<u64> = Vec::with_capacity(n);
        let mut i: usize = 0;
        while i < n
            invariant
                i <= n,
                n == a@.len(),
                r@.len() == i,
                forall|k: int| 0 <= k < i ==> (#[trigger] r@[k]) == reduce_i64_seq(a@, self.value())[k],
                forall|k: int| 0 <= k < i ==> (#[trigger] r@[k]) < self.value(),
            decreases n - i,
        {
            let v: u64 = self.reduce_i64(a[i]);
            r.push(v);
            i += 1;
        }
        proof {
            assert(r@ =~= reduce_i64_seq(a@, self.value()));
        }
        r
    }
}

/// The residue of a negative number from that of its absolute value.
proof fn lemma_neg_residue(x: int, q: int)
    requires
        x < 0,
        q > 0,
    ensures
        (-x) % q == 0 ==> x % q == 0,
        (-x) % q != 0 ==> x % q == q - (-x) % q,
{
    let m = (-x) % q;
    let d = (-x) / q;
    lemma_fundamental_div_mod(-x, q);
    lemma_mod_bound(-x, q);
    if m == 0 {
        assert(x == q * (-d)) by (nonlinear_arith)
            requires
                -x == q * d + m,
                m == 0,
        ;
        lemma_mod_multiples_basic(-d, q);
        lemma_mul_is_commutative(q, -d);
    } else {
        assert(x == q * (-d - 1) + (q - m)) by (nonlinear_arith)
            requires
                -x == q * d + m,
        ;
        lemma_fundamental_div_mod_converse(x, q, -d - 1, q - m);
    }
}

/// One division step keeps a linear combination of the two remainders.
proof fn lemma_step_combination(ca: int, cb: int, r0: int, r1: int, k: int, r2: int)
    requires
        r0 == r1 * k + r2,
    ensures
        ca * r0 + cb * r1 == (ca * k + cb) * r1 + ca * r2,
{
    assert(ca * (r1 * k + r2) + cb * r1 == (ca * k + cb) * r1 + ca * r2) by (nonlinear_arith);
}

/// One division step keeps the congruence between a coefficient and its remainder.
proof fn lemma_step_residue(
    t0: int,
    t1: int,
    t2: int,
    a: int,
    k: int,
    r0: int,
    r1: int,
    r2: int,
    q: int,
)
    requires
        q > 0,
        r0 == r1 * k + r2,
        (t0 * a) % q == r0 % q,
        (t1 * a) % q == r1 % q,
        t2 == (t0 - ((k % q) * t1) % q) % q,
    ensures
        (t2 * a) % q == r2 % q,
{
    // t2 is congruent to t0 - k * t1
    lemma_mul_mod_noop_general(k, t1, q);
    assert(((k % q) * t1) % q == (k * t1) % q);
    lemma_sub_mod_noop_right(t0, k * t1, q);
    assert(t2 == (t0 - k * t1) % q);
    lemma_mul_mod_noop_general(t0 - k * t1, a, q);
    assert((t2 * a) % q == ((t0 - k * t1) * a) % q);
    assert((t0 - k * t1) * a == t0 * a - k * (t1 * a)) by (nonlinear_arith);
    lemma_mul_mod_noop_general(k, t1 * a, q);
    lemma_mul_mod_noop_general(k, r1, q);
    assert((k * (t1 * a)) % q == (k * r1) % q);
    lemma_sub_mod_noop(t0 * a, k * (t1 * a), q);
    lemma_sub_mod_noop(r0, k * r1, q);
    assert((t0 * a - k * (t1 * a)) % q == (r0 - k * r1) % q);
    assert(r0 - k * r1 == r2) by (nonlinear_arith)
        requires
            r0 == r1 * k + r2,
    ;
}

/// A common divisor above one rules out an inverse.
proof fn lemma_no_inverse(a: int, q: int, g: int, ca: int, cc: int, y: int)
    requires
        q >= 2,
        g != 1,
        g > 0,
        q == ca * g,
        a == cc * g,
    ensures
        (a * y) % q != 1,
{
    if (a * y) % q == 1 {
        let m = (a * y) / q;
        lemma_fundamental_div_mod(a * y, q);
        assert(g * (cc * y - ca * m) == 1) by (nonlinear_arith)
            requires
                a * y == q * m + 1,
                q == ca * g,
                a == cc * g,
        ;
        assert(false) by (nonlinear_arith)
            requires
                g * (cc * y - ca * m) == 1,
                g >= 2,
        ;
    }
}

} // verus!
