//! The negacyclic number-theoretic transform of length `n` modulo `q`.

use crate::modulus::{reduced, Modulus};
use vstd::arithmetic::div_mod::*;
use vstd::arithmetic::mul::*;
use vstd::arithmetic::power::*;
use vstd::arithmetic::power2::is_pow2;
use vstd::prelude::*;

verus! {

/// Candidates for the root of unity are tried below this bound.
pub const ROOT_SEARCH_LIMIT: u64 = 1024;

/// The value at `x` of the polynomial whose coefficients are `a`, lowest first.
pub open spec fn poly_eval(a: Seq<u64>, x: int) -> int
    decreases a.len(),
{
    if a.len() == 0 {
        0
    } else {
        poly_eval(a.drop_last(), x) + a.last() * pow(x, (a.len() - 1) as nat)
    }
}

/// The coefficients of `a` at even positions.
pub open spec fn evens(a: Seq<u64>) -> Seq<u64> {
    Seq::new(a.len() / 2, |i: int| a[2 * i])
}

/// The coefficients of `a` at odd positions.
pub open spec fn odds(a: Seq<u64>) -> Seq<u64> {
    Seq::new(a.len() / 2, |i: int| a[2 * i + 1])
}

/// `psi` to the power `n` is minus one modulo `q`: `psi` is a primitive
/// `2n`-th root of unity when `n` is a power of two.
pub open spec fn is_negacyclic_root(psi: int, n: nat, q: int) -> bool {
    pow(psi, n) % q == q - 1
}

/// The root of unity that the candidate `x` gives for length `n` modulo `q`.
pub open spec fn root_from(x: int, n: int, q: int) -> int {
    pow(x, ((q - 1) / (2 * n)) as nat) % q
}

/// `psi` is the root that the least suitable candidate gives for length `n`
/// modulo `q`.
pub open spec fn is_least_root(psi: int, n: int, q: int) -> bool {
    exists|x: int|
        2 <= x < ROOT_SEARCH_LIMIT && x < q && psi == #[trigger] root_from(x, n, q)
            && is_negacyclic_root(psi, n as nat, q) && forall|y: int|
            2 <= y < x ==> !is_negacyclic_root(#[trigger] root_from(y, n, q), n as nat, q)
}

/// Some candidate below the search bound gives a root for length `n` modulo `q`.
pub open spec fn has_root(n: int, q: int) -> bool {
    exists|x: int|
        2 <= x < ROOT_SEARCH_LIMIT && x < q && is_negacyclic_root(
            #[trigger] root_from(x, n, q),
            n as nat,
            q,
        )
}

/// A transform of length `n` exists modulo `q`.
pub open spec fn supports(n: int, q: int) -> bool {
    &&& is_pow2(n)
    &&& (q - 1) % (2 * n) == 0
    &&& has_root(n, q)
}

/// The forward transform of `a`: its values at the odd powers of `psi`.
pub open spec fn forward_spec(a: Seq<u64>, psi: int, q: int) -> Seq<u64> {
    Seq::new(a.len(), |k: int| (poly_eval(a, pow(psi, (2 * k + 1) as nat)) % q) as u64)
}

/// The backward transform of `a`, with `psi_inv` the inverse of the root and
/// `n_inv` the inverse of the length.
pub open spec fn backward_spec(a: Seq<u64>, psi_inv: int, n_inv: int, q: int) -> Seq<u64> {
    Seq::new(
        a.len(),
        |j: int|
            ((n_inv * pow(psi_inv, j as nat) * poly_eval(a, pow(psi_inv, (2 * j) as nat)))
                % q) as u64,
    )
}

/// The transform of length `degree` modulo `modulus`.
#[derive(Clone, Copy)]
pub struct NttOperator {
    modulus: Modulus,
    degree: usize,
    psi: u64,
    psi_inv: u64,
    n_inv: u64,
}

impl NttOperator {
    #[verifier::type_invariant]
    spec fn type_inv(self) -> bool {
        self.wf()
    }

    /// The modulus of the transform.
    pub closed spec fn q(&self) -> int {
        self.modulus.value()
    }

    /// The length of the transform.
    pub closed spec fn n(&self) -> nat {
        self.degree as nat
    }

    /// The root of unity of the transform.
    pub closed spec fn root(&self) -> int {
        self.psi as int
    }

    /// The inverse of the root.
    pub closed spec fn root_inv(&self) -> int {
        self.psi_inv as int
    }

    /// The inverse of the length.
    pub closed spec fn length_inv(&self) -> int {
        self.n_inv as int
    }

    /// The length is a power of two, the root is the one that the least
    /// suitable candidate gives and has order twice the length, and the two
    /// inverses are inverses.
    pub open spec fn wf(&self) -> bool {
        &&& 2 <= self.q() < crate::modulus::MODULUS_LIMIT
        &&& is_pow2(self.n() as int)
        &&& 0 <= self.root() < self.q()
        &&& is_least_root(self.root(), self.n() as int, self.q())
        &&& 0 <= self.root_inv() < self.q()
        &&& 0 <= self.length_inv() < self.q()
        &&& is_negacyclic_root(self.root(), self.n(), self.q())
        &&& is_negacyclic_root(self.root_inv(), self.n(), self.q())
        &&& (self.root() * self.root_inv()) % self.q() == 1
        &&& (self.n() * self.length_inv()) % self.q() == 1
    }

    /// What `forward` makes of `a`.
    pub open spec fn forward_of(&self, a: Seq<u64>) -> Seq<u64> {
        forward_spec(a, self.root(), self.q())
    }

    /// What `backward` makes of `a`.
    pub open spec fn backward_of(&self, a: Seq<u64>) -> Seq<u64> {
        backward_spec(a, self.root_inv(), self.length_inv(), self.q())
    }

    /// Builds the transform of length `degree` modulo `modulus` on the root
    /// that the least suitable candidate gives, or nothing when the modulus
    /// does not support that length.
    pub fn new(modulus: Modulus, degree: usize) -> (r: Option<NttOperator>)
        ensures
            r is Some <==> supports(degree as int, modulus.value()),
            r is Some ==> r->0.wf() && r->0.q() == modulus.value() && r->0.n() == degree,
    {
        let q: u64 = modulus.modulus();
        if !is_power_of_two(degree) {
            return None;
        }
        proof {
            reveal(is_pow2);
            assert(degree >= 1);
        }
        if degree as u64 > (q - 1) / 2 {
            proof {
                lemma_divisor_bound((q - 1) as int, 2 * degree);
            }
            return None;
        }
        let two_n: u64 = 2 * (degree as u64);
        if (q - 1) % two_n != 0 {
            return None;
        }
        let e: u64 = (q - 1) / two_n;
        let mut x: u64 = 2;
        while x < ROOT_SEARCH_LIMIT && x < q
            invariant
                2 <= x <= ROOT_SEARCH_LIMIT,
                q == modulus.value(),
                modulus.wf(),
                two_n == 2 * degree,
                degree >= 1,
                is_pow2(degree as int),
                (q - 1) % (two_n as int) == 0,
                e == (q - 1) / (two_n as int),
                forall|y: int|
                    2 <= y < x ==> !is_negacyclic_root(
                        #[trigger] root_from(y, degree as int, q as int),
                        degree as nat,
                        q as int,
                    ),
            decreases ROOT_SEARCH_LIMIT - x,
        {
            let psi: u64 = modulus.pow(x, e);
            let top: u64 = modulus.pow(psi, degree as u64);
            if top == q - 1 {
                proof {
                    lemma_small_mod(psi as nat, q as nat);
                    assert(psi == root_from(x as int, degree as int, q as int));
                    assert(is_least_root(psi as int, degree as int, q as int));
                }
                let op = Self::from_root(modulus, degree, psi);
                proof {
                    assert(is_negacyclic_root(
                        root_from(x as int, degree as int, q as int),
                        degree as nat,
                        q as int,
                    ));
                }
                return Some(op);
            }
            x += 1;
        }
        None
    }

    /// The transform on a given root, with the inverses that belong to it.
    fn from_root(modulus: Modulus, degree: usize, psi: u64) -> (op: NttOperator)
        requires
            modulus.wf(),
            is_pow2(degree as int),
            (modulus.value() - 1) % (2 * degree) == 0,
            psi < modulus.value(),
            is_negacyclic_root(psi as int, degree as nat, modulus.value()),
            is_least_root(psi as int, degree as int, modulus.value()),
        ensures
            op.wf(),
            op.q() == modulus.value(),
            op.n() == degree,
            op.root() == psi,
    {
        let q: u64 = modulus.modulus();
        proof {
            reveal(is_pow2);
            assert(degree >= 1);
            lemma_divisor_bound((q - 1) as int, 2 * degree);
        }
        let psi_inv: u64 = modulus.pow(psi, 2 * (degree as u64) - 1);
        proof {
            lemma_inverse_root(psi as int, psi_inv as int, degree as nat, q as int);
        }
        // q is odd, so (q + 1) / 2 is the inverse of two
        let half: u64 = (q + 1) / 2;
        let mut n_inv: u64 = 1;
        let mut m: usize = degree;
        let ghost mut d: int = 1;
        proof {
            lemma_small_mod(1, q as nat);
            assert((q - 1) % 2 == 0) by {
                lemma_mod_breakdown((q - 1) as int, 2, degree as int);
            }
        }
        while m > 1
            invariant
                q == modulus.value(),
                modulus.wf(),
                q % 2 == 1,
                half == (q + 1) / 2,
                is_pow2(m as int),
                d * m == degree,
                d >= 1,
                n_inv < q,
                (d * n_inv) % (q as int) == 1,
            decreases m,
        {
            proof {
                reveal(is_pow2);
                lemma_halving_step(d, n_inv as int, half as int, q as int);
                assert((2 * d) * (m / 2) == d * m) by (nonlinear_arith)
                    requires
                        m % 2 == 0,
                ;
            }
            n_inv = modulus.mul(n_inv, half);
            m = m / 2;
            proof {
                d = 2 * d;
            }
        }
        proof {
            reveal(is_pow2);
            assert(m == 1);
            assert(d == degree) by (nonlinear_arith)
                requires
                    d * m == degree,
                    m == 1,
            ;
        }
        NttOperator { modulus, degree, psi, psi_inv, n_inv }
    }

    /// The length of the transform.
    pub fn degree(&self) -> (n: usize)
        ensures
            n == self.n(),
            self.wf(),
    {
        proof {
            use_type_invariant(self);
        }
        self.degree
    }

    /// The modulus of the transform.
    pub fn modulus(&self) -> (m: Modulus)
        ensures
            m.value() == self.q(),
            self.wf(),
    {
        proof {
            use_type_invariant(self);
        }
        self.modulus
    }

    /// Replaces the coefficients `a` by their values at the odd powers of the root.
    pub fn forward(&self, a: &mut Vec<u64>)
        requires
            old(a)@.len() == self.n(),
            reduced(old(a)@, self.q()),
        ensures
            final(a)@ == self.forward_of(old(a)@),
            reduced(final(a)@, self.q()),
    {
        proof {
            use_type_invariant(self);
        }
        let m = &self.modulus;
        let q: u64 = m.modulus();
        let w: u64 = m.mul(self.psi, self.psi);
        proof {
            reveal(is_pow2);
            if self.degree >= 2 {
                lemma_root_squared(self.psi as int, w as int, self.degree as nat, m.value());
            }
        }
        let out = eval_points(m, a, self.psi, w);
        proof {
            let q = m.value();
            assert forall|k: int| 0 <= k < out@.len() implies out@[k] == self.forward_of(a@)[k] by {
                lemma_odd_power(self.psi as int, w as int, k as nat, q);
                lemma_eval_congruent(
                    a@,
                    self.psi * pow(w as int, k as nat),
                    pow(self.psi as int, (2 * k + 1) as nat),
                    q,
                );
            }
            assert(out@ =~= self.forward_of(a@));
        }
        *a = out;
    }

    /// Replaces the values `a` at the odd powers of the root by the coefficients.
    pub fn backward(&self, a: &mut Vec<u64>)
        requires
            old(a)@.len() == self.n(),
            reduced(old(a)@, self.q()),
        ensures
            final(a)@ == self.backward_of(old(a)@),
            reduced(final(a)@, self.q()),
    {
        proof {
            use_type_invariant(self);
        }
        let m = &self.modulus;
        let q: u64 = m.modulus();
        let w: u64 = m.mul(self.psi_inv, self.psi_inv);
        proof {
            reveal(is_pow2);
            if self.degree >= 2 {
                lemma_root_squared(self.psi_inv as int, w as int, self.degree as nat, m.value());
            }
            lemma_small_mod(1, q as nat);
            lemma_pow0(self.psi_inv as int);
        }
        let vals = eval_points(m, a, 1, w);
        let n: usize = a.len();
        let mut out: Vec<u64> = Vec::with_capacity(n);
        let mut y: u64 = 1;
        let mut j: usize = 0;
        while j < n
            invariant
                j <= n,
                n == a@.len(),
                n == vals@.len(),
                out@.len() == j,
                q == m.value(),
                m.wf(),
                *m == self.modulus,
                self.wf(),
                w == (self.psi_inv * self.psi_inv) % (q as int),
                y == pow(self.psi_inv as int, j as nat) % (q as int),
                forall|k: int|
                    0 <= k < n ==> (#[trigger] vals@[k]) == poly_eval(a@, 1 * pow(w as int, k as nat))
                        % (q as int),
                forall|k: int| 0 <= k < j ==> (#[trigger] out@[k]) == self.backward_of(a@)[k],
                forall|k: int| 0 <= k < j ==> (#[trigger] out@[k]) < q,
            decreases n - j,
        {
            let s: u64 = m.mul(self.n_inv, y);
            let v: u64 = m.mul(s, vals[j]);
            proof {
                let qi = q as int;
                let pi = self.psi_inv as int;
                let ev = poly_eval(a@, pow(pi, (2 * j) as nat));
                lemma_even_power(pi, w as int, j as nat, qi);
                lemma_eval_congruent(a@, 1 * pow(w as int, j as nat), pow(pi, (2 * j) as nat), qi);
                assert(vals@[j as int] == ev % qi);
                lemma_mul_mod_noop_general(self.n_inv as int, pow(pi, j as nat), qi);
                assert(s == (self.n_inv * pow(pi, j as nat)) % qi);
                lemma_mul_mod_noop_general(self.n_inv * pow(pi, j as nat), ev, qi);
                assert(v == (self.n_inv * pow(pi, j as nat) * ev) % qi);
                // the next power of the inverse root
                lemma_pow_adds(pi, j as nat, 1);
                lemma_pow1(pi);
                lemma_mul_mod_noop_general(pow(pi, j as nat), pi, qi);
            }
            out.push(v);
            y = m.mul(y, self.psi_inv);
            j += 1;
        }
        proof {
            assert(out@ =~= self.backward_of(a@));
        }
        *a = out;
    }
}

/// The values of the polynomial `a` at the points `c * w^k` for `k` below the
/// length of `a`, where `w` to half that length is minus one.
fn eval_points(m: &Modulus, a: &Vec<u64>, c: u64, w: u64) -> (out: Vec<u64>)
    requires
        m.wf(),
        is_pow2(a@.len() as int),
        reduced(a@, m.value()),
        c < m.value(),
        w < m.value(),
        a@.len() >= 2 ==> is_negacyclic_root(w as int, (a@.len() / 2) as nat, m.value()),
    ensures
        out@.len() == a@.len(),
        reduced(out@, m.value()),
        forall|k: int|
            0 <= k < a@.len() ==> (#[trigger] out@[k]) == poly_eval(a@, c * pow(w as int, k as nat))
                % m.value(),
    decreases a@.len(),
{
    let n: usize = a.len();
    let q: u64 = m.modulus();
    proof {
        reveal(is_pow2);
    }
    if n == 1 {
        let mut out: Vec<u64> = Vec::with_capacity(1);
        out.push(a[0]);
        proof {
            let x = c * pow(w as int, 0);
            assert(a@.drop_last().len() == 0);
            assert(poly_eval(a@.drop_last(), x) == 0);
            lemma_pow0(x);
            assert(poly_eval(a@, x) == a@[0] * 1);
            lemma_small_mod(a@[0] as nat, q as nat);
        }
        return out;
    }
    let h: usize = n / 2;
    let mut even: Vec<u64> = Vec::with_capacity(h);
    let mut odd: Vec<u64> = Vec::with_capacity(h);
    let mut i: usize = 0;
    while i < h
        invariant
            i <= h,
            n == 2 * h,
            n == a@.len(),
            even@.len() == i,
            odd@.len() == i,
            forall|k: int| 0 <= k < i ==> (#[trigger] even@[k]) == a@[2 * k],
            forall|k: int| 0 <= k < i ==> (#[trigger] odd@[k]) == a@[2 * k + 1],
        decreases h - i,
    {
        even.push(a[2 * i]);
        odd.push(a[2 * i + 1]);
        i += 1;
    }
    proof {
        assert(even@ =~= evens(a@));
        assert(odd@ =~= odds(a@));
    }
    let c2: u64 = m.mul(c, c);
    let w2: u64 = m.mul(w, w);
    proof {
        assert(is_pow2(h as int));
        if h >= 2 {
            assert(h % 2 == 0);
            lemma_root_squared(w as int, w2 as int, h as nat, q as int);
        }
    }
    let ev = eval_points(m, &even, c2, w2);
    let od = eval_points(m, &odd, c2, w2);
    let mut lo: Vec<u64> = Vec::with_capacity(h);
    let mut hi: Vec<u64> = Vec::with_capacity(h);
    let mut x: u64 = c;
    let mut k: usize = 0;
    proof {
        lemma_pow0(w as int);
        lemma_small_mod(c as nat, q as nat);
    }
    while k < h
        invariant
            k <= h,
            n == 2 * h,
            h >= 1,
            n == a@.len(),
            ev@.len() == h,
            od@.len() == h,
            lo@.len() == k,
            hi@.len() == k,
            m.wf(),
            q == m.value(),
            c < q,
            w < q,
            c2 == (c * c) % (q as int),
            w2 == (w * w) % (q as int),
            reduced(ev@, q as int),
            reduced(od@, q as int),
            reduced(lo@, q as int),
            reduced(hi@, q as int),
            is_negacyclic_root(w as int, h as nat, q as int),
            x == (c * pow(w as int, k as nat)) % (q as int),
            forall|i: int|
                0 <= i < h ==> (#[trigger] ev@[i]) == poly_eval(evens(a@), c2 * pow(w2 as int, i as nat))
                    % (q as int),
            forall|i: int|
                0 <= i < h ==> (#[trigger] od@[i]) == poly_eval(odds(a@), c2 * pow(w2 as int, i as nat))
                    % (q as int),
            forall|i: int|
                0 <= i < k ==> (#[trigger] lo@[i]) == poly_eval(a@, c * pow(w as int, i as nat)) % (
                q as int),
            forall|i: int|
                0 <= i < k ==> (#[trigger] hi@[i]) == poly_eval(
                    a@,
                    c * pow(w as int, (i + h) as nat),
                ) % (q as int),
        decreases h - k,
    {
        let t: u64 = m.mul(x, od[k]);
        let u: u64 = m.add(ev[k], t);
        let v: u64 = m.sub(ev[k], t);
        proof {
            lemma_butterfly(a@, c as int, w as int, k as nat, h as nat, q as int);
            let qi = q as int;
            let xx = c * pow(w as int, k as nat);
            let e = poly_eval(evens(a@), xx * xx);
            let o = poly_eval(odds(a@), xx * xx);
            lemma_eval_congruent(evens(a@), c2 * pow(w2 as int, k as nat), xx * xx, qi);
            lemma_eval_congruent(odds(a@), c2 * pow(w2 as int, k as nat), xx * xx, qi);
            assert(ev@[k as int] == e % qi);
            assert(od@[k as int] == o % qi);
            lemma_mul_mod_noop_general(xx, o, qi);
            assert(t == (xx * o) % qi);
            lemma_add_mod_noop(e, xx * o, qi);
            lemma_sub_mod_noop(e, xx * o, qi);
            // the next point
            lemma_pow_adds(w as int, k as nat, 1);
            lemma_pow1(w as int);
            assert(c * (pow(w as int, k as nat) * w) == (c * pow(w as int, k as nat)) * w)
                by (nonlinear_arith);
            lemma_mul_mod_noop_general(xx, w as int, qi);
        }
        lo.push(u);
        hi.push(v);
        x = m.mul(x, w);
        k += 1;
    }
    let ghost hi_vals = hi@;
    let mut out: Vec<u64> = lo;
    let mut hi = hi;
    out.append(&mut hi);
    proof {
        assert forall|i: int| 0 <= i < n implies (#[trigger] out@[i]) == poly_eval(
            a@,
            c * pow(w as int, i as nat),
        ) % (q as int) by {
            if i >= h {
                assert(out@[i] == hi_vals[i - h]);
            }
        }
    }
    out
}

/// Whether `n` is a power of two.
pub fn is_power_of_two(n: usize) -> (b: bool)
    ensures
        b == is_pow2(n as int),
    decreases n,
{
    proof {
        reveal(is_pow2);
    }
    if n == 0 {
        false
    } else if n == 1 {
        true
    } else if n % 2 != 0 {
        false
    } else {
        is_power_of_two(n / 2)
    }
}

/// A positive number is at least each of its positive divisors.
proof fn lemma_divisor_bound(a: int, d: int)
    requires
        a > 0,
        d > 0,
    ensures
        a % d == 0 ==> d <= a,
{
    if a % d == 0 && d > a {
        lemma_small_mod(a as nat, d as nat);
    }
}

/// From a root `psi` for length `n`, the power `psi^(2n-1)` is its inverse and
/// a root for length `n` too.
proof fn lemma_inverse_root(psi: int, psi_inv: int, n: nat, q: int)
    requires
        q >= 2,
        n >= 1,
        is_negacyclic_root(psi, n, q),
        psi_inv == pow(psi, (2 * n - 1) as nat) % q,
    ensures
        (psi * psi_inv) % q == 1,
        is_negacyclic_root(psi_inv, n, q),
{
    let a = pow(psi, n);
    let b = pow(psi_inv, n);
    // psi * psi^(2n-1) is (psi^n)^2, the square of minus one
    lemma_pow_adds(psi, 1, (2 * n - 1) as nat);
    lemma_pow1(psi);
    lemma_pow_adds(psi, n, n);
    assert(psi * pow(psi, (2 * n - 1) as nat) == a * a);
    lemma_mul_mod_noop_general(psi, pow(psi, (2 * n - 1) as nat), q);
    lemma_mul_mod_noop_general(a, a, q);
    assert((q - 1) * (q - 1) == q * (q - 2) + 1) by (nonlinear_arith);
    lemma_mod_multiples_vanish(q - 2, 1, q);
    lemma_small_mod(1, q as nat);
    assert((psi * psi_inv) % q == 1);
    // (psi * psi_inv)^n is one, and psi^n is minus one
    lemma_pow_distributes(psi, psi_inv, n);
    lemma_pow_mod_noop(psi * psi_inv, n, q);
    lemma1_pow(n);
    assert((a * b) % q == 1);
    lemma_mul_mod_noop_general(a, b, q);
    assert(((q - 1) * b) % q == 1);
    assert((q - 1) * b == q * b + (-b)) by (nonlinear_arith);
    lemma_mod_multiples_vanish(b, -b, q);
    assert((-b) % q == 1);
    lemma_fundamental_div_mod(-b, q);
    let k = (-b) / q;
    assert(b == q * (-k - 1) + (q - 1)) by (nonlinear_arith)
        requires
            -b == q * k + 1,
    ;
    lemma_fundamental_div_mod_converse(b, q, -k - 1, q - 1);
}

/// Doubling a number multiplies its inverse by the inverse of two.
proof fn lemma_halving_step(d: int, inv: int, half: int, q: int)
    requires
        q >= 2,
        q % 2 == 1,
        half == (q + 1) / 2,
        (d * inv) % q == 1,
    ensures
        ((2 * d) * ((inv * half) % q)) % q == 1,
{
    assert(2 * half == q + 1);
    lemma_mul_mod_noop_general(2 * d, inv * half, q);
    assert((2 * d) * (inv * half) == (d * inv) * (2 * half)) by (nonlinear_arith);
    lemma_mul_mod_noop_general(d * inv, 2 * half, q);
    lemma_mod_multiples_vanish(1, 1, q);
    lemma_small_mod(1, q as nat);
    assert((q + 1) % q == 1);
}

/// Congruent points give congruent values.
pub proof fn lemma_eval_congruent(a: Seq<u64>, x: int, y: int, q: int)
    requires
        q > 0,
        x % q == y % q,
    ensures
        poly_eval(a, x) % q == poly_eval(a, y) % q,
    decreases a.len(),
{
    if a.len() > 0 {
        let e = (a.len() - 1) as nat;
        lemma_eval_congruent(a.drop_last(), x, y, q);
        lemma_pow_mod_noop(x, e, q);
        lemma_pow_mod_noop(y, e, q);
        lemma_mul_mod_noop_general(a.last() as int, pow(x, e), q);
        lemma_mul_mod_noop_general(a.last() as int, pow(y, e), q);
        lemma_add_mod_noop(poly_eval(a.drop_last(), x), a.last() * pow(x, e), q);
        lemma_add_mod_noop(poly_eval(a.drop_last(), y), a.last() * pow(y, e), q);
    }
}

/// A polynomial is its even part at the square plus `x` times its odd part at the square.
pub proof fn lemma_eval_split(a: Seq<u64>, x: int)
    requires
        a.len() % 2 == 0,
    ensures
        poly_eval(a, x) == poly_eval(evens(a), x * x) + x * poly_eval(odds(a), x * x),
    decreases a.len(),
{
    if a.len() == 0 {
        assert(evens(a).len() == 0);
        assert(odds(a).len() == 0);
        assert(x * 0 == 0);
    } else {
        let mi: int = a.len() / 2 - 1;
        let m = mi as nat;
        let b = a.drop_last().drop_last();
        lemma_eval_split(b, x);
        assert(evens(a).drop_last() =~= evens(b));
        assert(odds(a).drop_last() =~= odds(b));
        assert(evens(a).last() == a[2 * mi]);
        assert(odds(a).last() == a[2 * mi + 1]);
        assert(a.drop_last().last() == a[2 * mi]);
        assert(a.last() == a[2 * mi + 1]);
        let s = pow(x * x, m);
        lemma_square_power(x, m);
        assert(pow(x, 2 * m) == s);
        lemma_pow_adds(x, 2 * m, 1);
        lemma_pow1(x);
        assert(pow(x, 2 * m + 1) == s * x);
        let pe = poly_eval(evens(b), x * x);
        let po = poly_eval(odds(b), x * x);
        let c0 = a[2 * mi] as int;
        let c1 = a[2 * mi + 1] as int;
        assert(poly_eval(a, x) == poly_eval(a.drop_last(), x) + c1 * pow(x, (a.len() - 1) as nat));
        assert(poly_eval(a.drop_last(), x) == poly_eval(b, x) + c0 * pow(
            x,
            (a.drop_last().len() - 1) as nat,
        ));
        assert(poly_eval(evens(a), x * x) == poly_eval(evens(a).drop_last(), x * x) + c0 * pow(
            x * x,
            (evens(a).len() - 1) as nat,
        ));
        assert(poly_eval(odds(a), x * x) == poly_eval(odds(a).drop_last(), x * x) + c1 * pow(
            x * x,
            (odds(a).len() - 1) as nat,
        ));
        assert(poly_eval(a, x) == (pe + x * po) + c0 * s + c1 * (s * x));
        assert(poly_eval(evens(a), x * x) == pe + c0 * s);
        assert(poly_eval(odds(a), x * x) == po + c1 * s);
        assert((pe + x * po) + c0 * s + c1 * (s * x) == (pe + c0 * s) + x * (po + c1 * s))
            by (nonlinear_arith);
    }
}

/// Powers of a square are the even powers.
pub proof fn lemma_square_power(x: int, m: nat)
    ensures
        pow(x * x, m) == pow(x, 2 * m),
{
    lemma_pow_distributes(x, x, m);
    lemma_pow_adds(x, m, m);
}

/// The square of a root for length `2h` is a root for length `h`.
proof fn lemma_root_squared(w: int, w2: int, n: nat, q: int)
    requires
        q > 0,
        n % 2 == 0,
        w2 == (w * w) % q,
        is_negacyclic_root(w, n, q),
    ensures
        is_negacyclic_root(w2, n / 2, q),
{
    lemma_pow_mod_noop(w * w, n / 2, q);
    lemma_square_power(w, n / 2);
}

/// The point `psi * (psi^2)^k` is the odd power `psi^(2k+1)`.
proof fn lemma_odd_power(psi: int, w: int, k: nat, q: int)
    requires
        q > 0,
        w == (psi * psi) % q,
    ensures
        (psi * pow(w, k)) % q == pow(psi, 2 * k + 1) % q,
{
    lemma_even_power(psi, w, k, q);
    lemma_pow_adds(psi, 1, 2 * k);
    lemma_pow1(psi);
    lemma_mul_mod_noop_general(psi, pow(w, k), q);
    lemma_mul_mod_noop_general(psi, pow(psi, 2 * k), q);
}

/// The point `(psi^2)^k` is the even power `psi^(2k)`.
proof fn lemma_even_power(psi: int, w: int, k: nat, q: int)
    requires
        q > 0,
        w == (psi * psi) % q,
    ensures
        (1 * pow(w, k)) % q == pow(psi, 2 * k) % q,
{
    lemma_pow_mod_noop(psi * psi, k, q);
    lemma_square_power(psi, k);
}

/// One butterfly: the values of `a` at `x` and at `x * w^h`, where `w^h` is
/// minus one, from the values of its two halves at `x * x`.
proof fn lemma_butterfly(a: Seq<u64>, c: int, w: int, k: nat, h: nat, q: int)
    requires
        q > 0,
        a.len() % 2 == 0,
        is_negacyclic_root(w, h, q),
    ensures
        ({
            let x = c * pow(w, k);
            let e = poly_eval(evens(a), x * x);
            let o = poly_eval(odds(a), x * x);
            &&& poly_eval(a, x) % q == (e + x * o) % q
            &&& poly_eval(a, c * pow(w, k + h)) % q == (e - x * o) % q
            &&& (((c * c) % q) * pow((w * w) % q, k)) % q == (x * x) % q
        }),
{
    let x = c * pow(w, k);
    let y = c * pow(w, k + h);
    let e = poly_eval(evens(a), x * x);
    let o = poly_eval(odds(a), x * x);
    lemma_eval_split(a, x);
    lemma_eval_split(a, y);
    // y is congruent to -x
    lemma_pow_adds(w, k, h);
    assert(y == x * pow(w, h)) by (nonlinear_arith)
        requires
            y == c * (pow(w, k) * pow(w, h)),
            x == c * pow(w, k),
    ;
    lemma_mul_mod_noop_general(x, pow(w, h), q);
    assert(y % q == (x * (q - 1)) % q);
    assert(x * (q - 1) == q * x + (-x)) by (nonlinear_arith);
    lemma_mod_multiples_vanish(x, -x, q);
    assert(y % q == (-x) % q);
    lemma_mul_mod_noop_general(y, y, q);
    lemma_mul_mod_noop_general(-x, -x, q);
    assert((-x) * (-x) == x * x) by (nonlinear_arith);
    assert((y * y) % q == (x * x) % q);
    lemma_eval_congruent(evens(a), y * y, x * x, q);
    lemma_eval_congruent(odds(a), y * y, x * x, q);
    let e2 = poly_eval(evens(a), y * y);
    let o2 = poly_eval(odds(a), y * y);
    lemma_mul_mod_noop_general(y, o2, q);
    lemma_mul_mod_noop_general(-x, o, q);
    assert((y * o2) % q == ((-x) * o) % q);
    assert((-x) * o == -(x * o)) by (nonlinear_arith);
    lemma_add_mod_noop(e2, y * o2, q);
    lemma_add_mod_noop(e, -(x * o), q);
    assert((e2 + y * o2) % q == (e - x * o) % q);
    // the point of the halves
    lemma_pow_mod_noop(w * w, k, q);
    lemma_pow_distributes(w, w, k);
    lemma_mul_mod_noop_general(c * c, pow(w * w, k), q);
    lemma_mul_mod_noop_general(c * c, pow((w * w) % q, k), q);
    assert((c * c) * (pow(w, k) * pow(w, k)) == x * x) by (nonlinear_arith)
        requires
            x == c * pow(w, k),
    ;
}

} // verus!
