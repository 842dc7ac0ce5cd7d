//! Polynomials in coefficient and evaluation form.
//!
//! The transform carries a coefficient vector onto a smooth multiplicative
//! subgroup; its contract states the mathematical value of every point. The
//! fold halves an evaluation table under a challenge, and its output is
//! pinned to the fold formula, from which the consistency with the even/odd
//! split of the underlying polynomial is proved.

use vstd::prelude::*;
use vstd::arithmetic::power::*;
use vstd::arithmetic::power2::*;
use vstd::arithmetic::div_mod::*;
use vstd::arithmetic::mul::*;

use crate::ProofError;
use crate::fields::FIELD_MODULUS;
use crate::fields::TWO_ADIC_ROOT;
use crate::fields::INV_TWO;
use crate::fields::in_field;
use crate::fields::is_smooth_order;
use crate::fields::felt_add;
use crate::fields::felt_sub;
use crate::fields::felt_mul;
use crate::fields::felt_pow;
use crate::fields::root_of_unity;

verus! {

/// Value of the polynomial with coefficients `c` at the integer point `x`,
/// over the integers: the Horner form c0 + x*(c1 + x*(...)).
pub open spec fn eval_int(c: Seq<u64>, x: int) -> int
    decreases c.len(),
{
    if c.len() == 0 {
        0int
    } else {
        c[0] + x * eval_int(c.drop_first(), x)
    }
}

/// Every entry is a canonical field element.
pub open spec fn all_in_field(v: Seq<u64>) -> bool {
    forall|i: int| 0 <= i < v.len() ==> in_field(#[trigger] v[i])
}

/// The even-index coefficients.
pub open spec fn even_coeffs(c: Seq<u64>) -> Seq<u64> {
    Seq::new(((c.len() + 1) / 2) as nat, |i: int| c[2 * i])
}

/// The odd-index coefficients.
pub open spec fn odd_coeffs(c: Seq<u64>) -> Seq<u64> {
    Seq::new((c.len() / 2) as nat, |i: int| c[2 * i + 1])
}

/// `n` is a power of two no larger than the two-adic order.
pub open spec fn smooth_int(n: int) -> bool {
    exists|k: nat| k <= 32 && n == pow2(k)
}

/// A domain size the transform accepts: smooth, and small enough for an
/// in-memory table on any supported pointer width.
pub open spec fn domain_ok(n: int) -> bool {
    smooth_int(n) && n <= 0x80000000
}

/// The canonical primitive root for a domain of size `n`.
pub open spec fn omega_of(n: int) -> int {
    pow(TWO_ADIC_ROOT as int, (0x100000000int / n) as nat) % (FIELD_MODULUS as int)
}

/// The exponent of a power of two.
pub open spec fn log2_of(n: int) -> nat {
    choose|k: nat| n == pow2(k)
}

/// The multiplicative inverse of the canonical domain root.
pub open spec fn omega_inv_of(n: int) -> int {
    pow(omega_of(n), (n - 1) as nat) % (FIELD_MODULUS as int)
}

/// The residue of 1/n for a power-of-two n: the half residue raised to
/// the exponent of n.
pub open spec fn scale_inv_of(n: int) -> int {
    pow(INV_TWO as int, log2_of(n)) % (FIELD_MODULUS as int)
}

/// The even/odd split identity of polynomial evaluation, over the integers:
/// P(x) equals Pe(x^2) + x * Po(x^2).
pub proof fn lemma_eval_split(c: Seq<u64>, x: int)
    ensures
        eval_int(c, x) == eval_int(even_coeffs(c), x * x) + x * eval_int(odd_coeffs(c), x * x),
    decreases c.len(),
{
    if c.len() == 0 {
        assert(even_coeffs(c).len() == 0);
        assert(odd_coeffs(c).len() == 0);
    } else {
        let t = c.drop_first();
        lemma_eval_split(t, x);
        assert(even_coeffs(t) =~= odd_coeffs(c));
        assert(odd_coeffs(t) =~= even_coeffs(c).drop_first());
        assert(even_coeffs(c).len() >= 1);
        assert(even_coeffs(c)[0] == c[0]);
        let ee = eval_int(even_coeffs(c).drop_first(), x * x);
        let oo = eval_int(odd_coeffs(c), x * x);
        // eval(c, x) = c0 + x * (oo + x * ee)
        assert(eval_int(t, x) == oo + x * ee);
        assert(eval_int(c, x) == c[0] + x * (oo + x * ee));
        // the target: (c0 + (x*x) * ee) + x * oo
        assert(eval_int(even_coeffs(c), x * x) == c[0] + (x * x) * ee);
        assert(x * (oo + x * ee) == x * oo + (x * x) * ee) by {
            lemma_mul_is_distributive_add(x, oo, x * ee);
            lemma_mul_is_associative(x, x, ee);
        }
    }
}

/// Evaluation respects congruence of the point modulo the field prime.
pub proof fn lemma_eval_mod(c: Seq<u64>, x: int, y: int)
    requires
        x % (FIELD_MODULUS as int) == y % (FIELD_MODULUS as int),
    ensures
        eval_int(c, x) % (FIELD_MODULUS as int) == eval_int(c, y) % (FIELD_MODULUS as int),
    decreases c.len(),
{
    let m = FIELD_MODULUS as int;
    if c.len() > 0 {
        let t = c.drop_first();
        lemma_eval_mod(t, x, y);
        let a = eval_int(t, x);
        let b = eval_int(t, y);
        assert((x * a) % m == (y * b) % m) by {
            lemma_mul_mod_noop(x, a, m);
            lemma_mul_mod_noop(y, b, m);
        }
        lemma_add_mod_noop_right(c[0] as int, x * a, m);
        lemma_add_mod_noop_right(c[0] as int, y * b, m);
    }
}

/// A nonnegative base keeps its powers nonnegative.
pub proof fn lemma_pow_nonneg(b: int, e: nat)
    requires
        b >= 0,
    ensures
        pow(b, e) >= 0,
    decreases e,
{
    reveal(pow);
    if e > 0 {
        lemma_pow_nonneg(b, (e - 1) as nat);
        lemma_mul_nonnegative(b, pow(b, (e - 1) as nat));
    }
}

/// Powers of a root cycle with period `n` once its n-th power is 1.
pub proof fn lemma_pow_cycle(w: int, n: nat, j: nat, k: nat)
    requires
        0 <= w,
        pow(w, n) % (FIELD_MODULUS as int) == 1,
    ensures
        pow(w, (k + j * n) as nat) % (FIELD_MODULUS as int) == pow(w, k) % (FIELD_MODULUS as int),
    decreases j,
{
    let m = FIELD_MODULUS as int;
    if j > 0 {
        lemma_pow_cycle(w, n, (j - 1) as nat, k);
        let prev = (k + (j - 1) * n) as nat;
        assert(j * n == (j - 1) * n + n) by (nonlinear_arith)
            requires
                j >= 1,
        ;
        assert((k + j * n) as nat == prev + n);
        lemma_pow_adds(w, prev, n);
        assert(pow(w, (prev + n) as nat) == pow(w, prev) * pow(w, n));
        assert(pow(w, (k + j * n) as nat) == pow(w, prev) * pow(w, n));
        lemma_mul_mod_noop(pow(w, prev), pow(w, n), m);
        assert((pow(w, prev) * pow(w, n)) % m == (pow(w, prev) % m * (pow(w, n) % m)) % m);
        assert((pow(w, prev) % m * (pow(w, n) % m)) % m == (pow(w, prev) % m * 1) % m);
        lemma_mul_basics(pow(w, prev) % m);
        assert(pow(w, prev) % m * 1 == pow(w, prev) % m);
        lemma_mod_twice(pow(w, prev), m);
        assert((pow(w, prev) % m) % m == pow(w, prev) % m);
        assert(pow(w, prev) % m == pow(w, k) % m);
    } else {
        assert(j * n == 0) by (nonlinear_arith)
            requires
                j == 0,
        ;
    }
}

/// A root whose half-order power is -1 has n-th power 1.
pub proof fn lemma_full_cycle(w: int, half: nat)
    requires
        0 <= w,
        pow(w, half) % (FIELD_MODULUS as int) == FIELD_MODULUS - 1,
    ensures
        pow(w, (half + half) as nat) % (FIELD_MODULUS as int) == 1,
{
    let m = FIELD_MODULUS as int;
    lemma_pow_adds(w, half, half);
    lemma_mul_mod_noop(pow(w, half), pow(w, half), m);
    assert(((m - 1) * (m - 1)) % m == 1) by {
        assert((m - 1) * (m - 1) == m * m - 2 * m + 1) by (nonlinear_arith);
        assert((m * m - 2 * m + 1) % m == 1) by {
            lemma_mod_multiples_vanish(m - 2, 1, m);
            assert((m - 2) * m + 1 == m * m - 2 * m + 1) by (nonlinear_arith);
            lemma_small_mod(1, m as nat);
        }
    }
}

/// A polynomial in coefficient form with an explicit degree.
pub struct PolynomialCoefficient {
    /// The claimed degree; the coefficient list holds degree + 1 entries
    /// or more.
    pub degree: u64,
    /// Coefficients, constant term first.
    pub coefficients: Vec<u64>,
}

impl PolynomialCoefficient {
    /// Structural invariant: enough coefficients, all canonical.
    pub open spec fn wf(&self) -> bool {
        &&& self.coefficients@.len() >= self.degree + 1
        &&& all_in_field(self.coefficients@)
    }

    /// The coefficients that the declared degree spans.
    pub open spec fn coeffs_s(&self) -> Seq<u64> {
        self.coefficients@.take(self.degree + 1)
    }

    /// Wraps a coefficient vector; the vector must cover the degree.
    pub fn new(degree: u64, raw: Vec<u64>) -> (r: PolynomialCoefficient)
        requires
            raw@.len() >= degree + 1,
            all_in_field(raw@),
        ensures
            r.wf(),
            r.degree == degree,
            r.coefficients@ == raw@,
    {
        PolynomialCoefficient { degree, coefficients: raw }
    }

    /// The zero polynomial of a given degree.
    pub fn zero(degree: u64) -> (r: PolynomialCoefficient)
        requires
            degree < u64::MAX,
        ensures
            r.wf(),
            r.degree == degree,
            r.coefficients@.len() == degree + 1,
            forall|i: int| 0 <= i < r.coefficients@.len() ==> r.coefficients@[i] == 0u64,
    {
        let mut coefficients: Vec<u64> = Vec::new();
        let mut i: u64 = 0;
        while i < degree + 1
            invariant
                degree < u64::MAX,
                i <= degree + 1,
                coefficients@.len() == i,
                forall|j: int| 0 <= j < i ==> coefficients@[j] == 0u64,
            decreases degree + 1 - i,
        {
            coefficients.push(0u64);
            i = i + 1;
        }
        PolynomialCoefficient { degree, coefficients }
    }

    /// Evaluates the polynomial over the domain of size (degree+1)*rate:
    /// point i of the result is the value at the i-th power of the domain
    /// root. Fails exactly when that domain size is not a power of two
    /// within the two-adic range.
    pub fn fft(self, rate: u64) -> (r: Result<PolynomialPoints, ProofError>)
        requires
            self.wf(),
        ensures
            r matches Ok(pp) ==> {
                let n = (self.degree + 1) * rate;
                &&& domain_ok(n)
                &&& pp.degree == self.degree
                &&& pp.evals@.len() == n
                &&& all_in_field(pp.evals@)
                &&& forall|i: int|
                    0 <= i < n ==> (#[trigger] pp.evals@[i]) as int == eval_int(
                        self.coeffs_s(),
                        pow(omega_of(n), i as nat),
                    ) % (FIELD_MODULUS as int)
            },
            r is Err <==> !domain_ok((self.degree + 1) * rate),
            r matches Err(e) ==> e == ProofError::ConfigError,
    {
        proof {
            assert((self.degree as int + 1) * (rate as int) <= 18446744073709551616int
                * 18446744073709551615int && (self.degree as int + 1) * (rate as int) >= 0)
                by (nonlinear_arith)
                requires
                    self.degree <= 18446744073709551615u64,
                    rate <= 18446744073709551615u64,
            ;
        }
        let m128: u128 = (self.degree as u128 + 1) * (rate as u128);
        if m128 == 0 || m128 > 0x80000000u128 {
            proof {
                if m128 == 0 {
                    broadcast use lemma_pow2_pos;

                    assert(!smooth_int(0));
                }
            }
            return Err(ProofError::ConfigError);
        }
        let n64: u64 = m128 as u64;
        let w = match root_of_unity(n64) {
            Ok(w) => w,
            Err(_) => {
                proof {
                    lemma_smooth_same((self.degree + 1) * rate as int, n64);
                }
                return Err(ProofError::ConfigError);
            },
        };
        let n: usize = n64 as usize;
        proof {
            lemma_rate_positive(self.degree as int, rate as int, m128 as int);
        }
        let mut head: Vec<u64> = Vec::new();
        let mut i: usize = 0;
        let count: usize = (self.degree + 1) as usize;
        while i < count
            invariant
                i <= count,
                count == self.degree + 1,
                self.wf(),
                head@ == self.coefficients@.take(count as int).take(i as int),
            decreases count - i,
        {
            head.push(self.coefficients[i]);
            proof {
                assert(self.coefficients@.take(count as int).take(i + 1) =~= self.coefficients@
                    .take(count as int).take(i as int).push(self.coefficients@[i as int]));
            }
            i = i + 1;
        }
        proof {
            assert(self.coefficients@.take(count as int).take(count as int)
                =~= self.coefficients@.take(count as int));
            assert(head@ == self.coeffs_s());
            assert(all_in_field(head@)) by {
                assert(forall|j: int|
                    0 <= j < head@.len() ==> head@[j] == self.coefficients@[j]
                        && in_field(#[trigger] self.coefficients@[j]));
            }
            assert(count <= n) by {
                lemma_rate_positive(self.degree as int, rate as int, n as int);
            }
        }
        let evals = fft_core(&head, w, n);
        Ok(PolynomialPoints { degree: self.degree, evals })
    }
}

/// A domain of a power-of-two size at least one has a positive cofactor,
/// so the coefficient count fits inside it.
proof fn lemma_rate_positive(degree: int, rate: int, n: int)
    requires
        degree >= 0,
        rate >= 0,
        n == (degree + 1) * rate,
        n >= 1,
    ensures
        degree + 1 <= n,
{
    assert(rate >= 1) by {
        if rate == 0 {
            assert(n == 0) by (nonlinear_arith)
                requires
                    n == (degree + 1) * rate,
                    rate == 0,
            ;
        }
    }
    assert((degree + 1) * 1 <= (degree + 1) * rate) by (nonlinear_arith)
        requires
            degree >= 0,
            1 <= rate,
    ;
}

/// Smoothness transfers through the u64 narrowing used by the transform.
proof fn lemma_smooth_same(n: int, n64: u64)
    requires
        n == n64 as int,
        !is_smooth_order(n64),
    ensures
        !smooth_int(n),
{
    assert forall|k: nat| k <= 32 implies pow2(k) != n by {
        if pow2(k) == n {
            assert(is_smooth_order(n64));
        }
    }
}

/// The radix-2 transform over a power-of-two domain. `omega` is a root
/// whose half-domain power is -1; point i of the result is the value of
/// the coefficient vector at omega^i.
#[verifier::rlimit(100)]
fn fft_core(coeffs: &Vec<u64>, omega: u64, n: usize) -> (r: Vec<u64>)
    requires
        coeffs@.len() <= n,
        1 <= n,
        smooth_int(n as int),
        all_in_field(coeffs@),
        in_field(omega),
        n >= 2 ==> pow(omega as int, (n / 2) as nat) % (FIELD_MODULUS as int) == FIELD_MODULUS
            - 1,
    ensures
        r@.len() == n,
        all_in_field(r@),
        forall|i: int|
            0 <= i < n ==> (#[trigger] r@[i]) as int == eval_int(
                coeffs@,
                pow(omega as int, i as nat),
            ) % (FIELD_MODULUS as int),
    decreases n,
{
    let ghost m = FIELD_MODULUS as int;
    if n == 1 {
        let v: u64 = if coeffs.len() == 0 {
            0u64
        } else {
            coeffs[0]
        };
        let mut out: Vec<u64> = Vec::new();
        out.push(v);
        proof {
            lemma_pow0(omega as int);
            assert forall|i: int| 0 <= i < 1 implies (#[trigger] out@[i]) as int == eval_int(
                coeffs@,
                pow(omega as int, i as nat),
            ) % m by {
                if coeffs@.len() == 0 {
                    assert(eval_int(coeffs@, 1) == 0);
                } else {
                    assert(coeffs@.drop_first().len() == 0);
                    assert(eval_int(coeffs@.drop_first(), 1) == 0);
                    assert(eval_int(coeffs@, 1) == coeffs@[0] + 1 * eval_int(
                        coeffs@.drop_first(),
                        1,
                    ));
                }
                lemma_small_mod(v as nat, FIELD_MODULUS as nat);
            }
        }
        return out;
    }
    let half: usize = n / 2;
    proof {
        let k = choose|k: nat| k <= 32 && n as int == pow2(k);
        lemma2_to64();
        if k == 0 {
            assert(false);
        }
        lemma_pow2_adds((k - 1) as nat, 1);
        assert(n as int == 2 * pow2((k - 1) as nat));
        assert(half as int == pow2((k - 1) as nat));
        assert(smooth_int(half as int));
    }
    let mut evens: Vec<u64> = Vec::new();
    let mut odds: Vec<u64> = Vec::new();
    let mut i: usize = 0;
    while i < coeffs.len()
        invariant
            i <= coeffs@.len(),
            coeffs@.len() <= n,
            evens@.len() == (i + 1) / 2,
            odds@.len() == i / 2,
            forall|j: int| 0 <= j < evens@.len() ==> evens@[j] == coeffs@[2 * j],
            forall|j: int| 0 <= j < odds@.len() ==> odds@[j] == coeffs@[2 * j + 1],
        decreases coeffs@.len() - i,
    {
        if i % 2 == 0 {
            evens.push(coeffs[i]);
        } else {
            odds.push(coeffs[i]);
        }
        i = i + 1;
    }
    proof {
        assert(evens@ =~= even_coeffs(coeffs@));
        assert(odds@ =~= odd_coeffs(coeffs@));
        assert(all_in_field(evens@)) by {
            assert(forall|j: int|
                0 <= j < evens@.len() ==> evens@[j] == coeffs@[2 * j] && in_field(
                    #[trigger] coeffs@[2 * j],
                ));
        }
        assert(all_in_field(odds@)) by {
            assert(forall|j: int|
                0 <= j < odds@.len() ==> odds@[j] == coeffs@[2 * j + 1] && in_field(
                    #[trigger] coeffs@[2 * j + 1],
                ));
        }
    }
    let w2 = felt_mul(omega, omega);
    proof {
        // the squared root drives the half-size domain
        if half >= 2 {
            lemma_pow_mod_noop((omega as int) * (omega as int), (half / 2) as nat, m);
            lemma_pow_multiplies(omega as int, 2, (half / 2) as nat);
            lemma_square_is_pow(omega as int);
            assert(2 * (half / 2) == n / 2) by {
                let k = choose|k: nat| k <= 32 && n as int == pow2(k);
                lemma2_to64();
                if k < 2 {
                    assert(false);
                }
                lemma_pow2_adds((k - 2) as nat, 1);
                lemma_pow2_adds((k - 1) as nat, 1);
            }
            assert(pow(w2 as int, (half / 2) as nat) % m == FIELD_MODULUS - 1);
        }
        assert(evens@.len() <= half);
        assert(odds@.len() <= half);
    }
    let e = fft_core(&evens, w2, half);
    let o = fft_core(&odds, w2, half);
    let mut out: Vec<u64> = Vec::new();
    let mut j: usize = 0;
    while j < n
        invariant
            out@.len() == j,
            j <= n,
            forall|x: int| 0 <= x < j ==> (#[trigger] out@[x]) == 0u64,
        decreases n - j,
    {
        out.push(0u64);
        j = j + 1;
    }
    let mut idx: usize = 0;
    while idx < half
        invariant
            idx <= half,
            n == 2 * half,
            1 <= half,
            out@.len() == n,
            coeffs@.len() <= n,
            all_in_field(coeffs@),
            in_field(omega),
            in_field(w2),
            w2 as int == ((omega as int) * (omega as int)) % m,
            pow(omega as int, half as nat) % m == FIELD_MODULUS - 1,
            m == FIELD_MODULUS as int,
            e@.len() == half,
            o@.len() == half,
            all_in_field(e@),
            all_in_field(o@),
            evens@ == even_coeffs(coeffs@),
            odds@ == odd_coeffs(coeffs@),
            forall|x: int|
                0 <= x < half ==> (#[trigger] e@[x]) as int == eval_int(
                    even_coeffs(coeffs@),
                    pow(w2 as int, x as nat),
                ) % m,
            forall|x: int|
                0 <= x < half ==> (#[trigger] o@[x]) as int == eval_int(
                    odd_coeffs(coeffs@),
                    pow(w2 as int, x as nat),
                ) % m,
            forall|x: int|
                0 <= x < idx ==> (#[trigger] out@[x]) as int == eval_int(
                    coeffs@,
                    pow(omega as int, x as nat),
                ) % m && in_field(out@[x]),
            forall|x: int|
                half <= x < half + idx ==> (#[trigger] out@[x]) as int == eval_int(
                    coeffs@,
                    pow(omega as int, x as nat),
                ) % m && in_field(out@[x]),
            forall|x: int| half + idx <= x < n ==> (#[trigger] out@[x]) == 0u64,
        decreases half - idx,
    {
        let x = felt_pow(omega, idx as u64);
        let t = felt_mul(x, o[idx]);
        let a = felt_add(e[idx], t);
        let b = felt_sub(e[idx], t);
        proof {
            lemma_butterfly(
                coeffs@,
                omega as int,
                idx as nat,
                half as nat,
                e@[idx as int] as int,
                o@[idx as int] as int,
                x as int,
                t as int,
                a as int,
                b as int,
            );
        }
        out.set(idx, a);
        out.set(idx + half, b);
        idx = idx + 1;
    }
    out
}

/// x * x is pow(x, 2).
proof fn lemma_square_is_pow(x: int)
    ensures
        pow(x, 2) == x * x,
{
    lemma_pow1(x);
    lemma_pow_adds(x, 1, 1);
}

/// The butterfly step: from the half-size evaluations of the even and odd
/// parts, the two output points of the full transform.
#[verifier::rlimit(100)]
proof fn lemma_butterfly(
    c: Seq<u64>,
    omega: int,
    i: nat,
    half: nat,
    e: int,
    o: int,
    x: int,
    t: int,
    a: int,
    b: int,
)
    requires
        0 <= omega < FIELD_MODULUS,
        1 <= half,
        i < half,
        pow(omega, half) % (FIELD_MODULUS as int) == FIELD_MODULUS - 1,
        e == eval_int(even_coeffs(c), pow((omega * omega) % (FIELD_MODULUS as int), i)) % (
        FIELD_MODULUS as int),
        o == eval_int(odd_coeffs(c), pow((omega * omega) % (FIELD_MODULUS as int), i)) % (
        FIELD_MODULUS as int),
        x == pow(omega, i) % (FIELD_MODULUS as int),
        t == (x * o) % (FIELD_MODULUS as int),
        a == (e + t) % (FIELD_MODULUS as int),
        b == (e - t) % (FIELD_MODULUS as int),
    ensures
        a == eval_int(c, pow(omega, i)) % (FIELD_MODULUS as int),
        b == eval_int(c, pow(omega, (i + half) as nat)) % (FIELD_MODULUS as int),
{
    let m = FIELD_MODULUS as int;
    let xi = pow(omega, i);
    lemma_pow_nonneg(omega, i);
    let ev = eval_int(even_coeffs(c), x * x);
    let ov = eval_int(odd_coeffs(c), x * x);
    // the recursive results evaluate the halves at x * x, modulo m
    assert(ev % m == e && ov % m == o) by {
        lemma_pow_mod_noop(omega * omega, i, m);
        lemma_pow_multiplies(omega, 2, i);
        lemma_square_is_pow(omega);
        // pow(omega, 2i) == pow(omega, i) * pow(omega, i)
        lemma_pow_adds(omega, i, i);
        // x * x is congruent to xi * xi
        lemma_mul_mod_noop(xi, xi, m);
        lemma_eval_mod(even_coeffs(c), x * x, pow((omega * omega) % m, i));
        lemma_eval_mod(odd_coeffs(c), x * x, pow((omega * omega) % m, i));
        assert((x * x) % m == pow((omega * omega) % m, i) % m) by {
            lemma_pow_mod_noop(omega * omega, i, m);
            lemma_pow_multiplies(omega, 2, i);
            lemma_mod_twice(pow(omega, 2 * i), m);
            assert(2 * i == i + i);
        }
    }
    // first output: eval at xi
    assert(a == eval_int(c, xi) % m) by {
        lemma_eval_split(c, x);
        lemma_mod_twice(xi, m);
        lemma_eval_mod(c, xi, x);
        // (ev + x * ov) % m == (e + t) % m
        lemma_mul_mod_noop_right(x, ov, m);
        lemma_mul_mod_noop_right(x, o, m);
        assert((x * ov) % m == t) by {
            lemma_mod_twice(x * o, m);
        }
        lemma_add_mod_noop(ev, x * ov, m);
        lemma_add_mod_noop(e, t, m);
        lemma_mod_twice(ev + x * ov, m);
        lemma_mod_twice(e + t, m);
    }
    // second output: eval at xi shifted half a period, where omega^half
    // is -1, so the odd term flips sign
    let xj = pow(omega, (i + half) as nat);
    assert(b == eval_int(c, xj) % m) by {
        let neg = (m - 1) * x;
        assert(xj % m == neg % m) by {
            lemma_pow_adds(omega, i, half);
            lemma_mul_mod_noop(xi, pow(omega, half), m);
            lemma_mul_mod_noop((m - 1), x, m);
            lemma_mod_twice(xi, m);
            lemma_small_mod((FIELD_MODULUS - 1) as nat, FIELD_MODULUS as nat);
            assert(xi * pow(omega, half) == xj);
        }
        lemma_eval_mod(c, xj, neg);
        lemma_eval_split(c, neg);
        // neg * neg is congruent to x * x
        assert((neg * neg) % m == (x * x) % m) by {
            assert(neg * neg == (m - 1) * (m - 1) * (x * x)) by (nonlinear_arith)
                requires
                    neg == (m - 1) * x,
            ;
            lemma_mul_mod_noop_left((m - 1) * (m - 1), x * x, m);
            assert(((m - 1) * (m - 1)) % m == 1) by {
                assert((m - 1) * (m - 1) == (m - 2) * m + 1) by (nonlinear_arith);
                lemma_mod_multiples_vanish(m - 2, 1, m);
                lemma_small_mod(1, m as nat);
            }
            lemma_mul_mod_noop_left(1, x * x, m);
        }
        let ev2 = eval_int(even_coeffs(c), neg * neg);
        let ov2 = eval_int(odd_coeffs(c), neg * neg);
        lemma_eval_mod(even_coeffs(c), neg * neg, x * x);
        lemma_eval_mod(odd_coeffs(c), neg * neg, x * x);
        // eval(c, neg) = ev2 + neg * ov2, and neg * ov2 is congruent to -t
        assert((neg * ov2) % m == (m - 1) * (x * o) % m ==> true);
        assert(eval_int(c, neg) % m == (ev2 + neg * ov2) % m);
        assert((ev2 + neg * ov2) % m == (e - t) % m) by {
            lemma_mul_mod_noop_right(neg, ov2, m);
            lemma_mul_mod_noop_right(neg, ov, m);
            assert(ov2 % m == ov % m);
            // neg * ov is congruent to -(x * ov)
            assert((neg * ov) % m == (-(x * ov)) % m) by {
                assert(neg * ov == m * (x * ov) + (-(x * ov))) by (nonlinear_arith)
                    requires
                        neg == (m - 1) * x,
                ;
                lemma_mod_multiples_vanish(x * ov, -(x * ov), m);
            }
            assert((x * ov) % m == t) by {
                lemma_mul_mod_noop_right(x, ov, m);
                lemma_mul_mod_noop_right(x, o, m);
                lemma_mod_twice(x * o, m);
            }
            assert((-(x * ov)) % m == (-t) % m) by {
                lemma_sub_mod_noop_right(0, x * ov, m);
                lemma_sub_mod_noop_right(0, t, m);
                lemma_mod_twice(x * ov, m);
            }
            lemma_add_mod_noop_right(ev2, neg * ov2, m);
            lemma_add_mod_noop_right(e, -t, m);
            assert(ev2 % m == e) by {
                lemma_mod_twice(ev, m);
            }
            lemma_mod_twice(ev2 + neg * ov2, m);
            lemma_mod_twice(e + (-t), m);
            assert(e + (-t) == e - t);
        }
    }
}


/// The fold formula: the value of the half-domain table at position i,
/// for a table over the powers of `w` with challenge `alpha`. Division by
/// 2x is expressed through the inverse powers, which exist because the
/// domain root has full order.
pub open spec fn fold_point_s(y0: u64, y1: u64, w: int, i: nat, n: nat, alpha: u64) -> int {
    ((y0 * (pow(w, i) + alpha) + y1 * (pow(w, i) - alpha)) * INV_TWO * pow(w, (n - i) as nat)) % (
    FIELD_MODULUS as int)
}

/// Maps the reduced arithmetic of the fold loop onto the fold formula.
pub(crate) proof fn lemma_fold_point(
    y0: u64,
    y1: u64,
    w: u64,
    i: nat,
    n: nat,
    alpha: u64,
    x: int,
    xinv: int,
    s0: int,
    s1: int,
    t0: int,
    t1: int,
    sum: int,
    v: int,
    v2: int,
)
    requires
        i <= n,
        in_field(w),
        in_field(alpha),
        x == pow(w as int, i) % (FIELD_MODULUS as int),
        xinv == pow(w as int, (n - i) as nat) % (FIELD_MODULUS as int),
        s0 == (x + alpha) % (FIELD_MODULUS as int),
        s1 == (x - alpha) % (FIELD_MODULUS as int),
        t0 == (y0 * s0) % (FIELD_MODULUS as int),
        t1 == (y1 * s1) % (FIELD_MODULUS as int),
        sum == (t0 + t1) % (FIELD_MODULUS as int),
        v == (sum * INV_TWO) % (FIELD_MODULUS as int),
        v2 == (v * xinv) % (FIELD_MODULUS as int),
    ensures
        v2 == fold_point_s(y0, y1, w as int, i, n, alpha),
{
    let m = FIELD_MODULUS as int;
    let xx = pow(w as int, i);
    let xxi = pow(w as int, (n - i) as nat);
    let a = y0 * (xx + alpha);
    let b = y1 * (xx - alpha);
    assert(alpha as int % m == alpha as int) by {
        lemma_small_mod(alpha as nat, FIELD_MODULUS as nat);
    }
    // the reduced sums agree with the unreduced ones modulo m
    assert((xx + alpha) % m == s0) by {
        lemma_add_mod_noop(xx, alpha as int, m);
        lemma_mod_twice(x + alpha, m);
    }
    assert((xx - alpha) % m == s1) by {
        lemma_sub_mod_noop(xx, alpha as int, m);
        lemma_mod_twice(x - alpha, m);
    }
    // so do the two products
    assert(a % m == t0) by {
        lemma_mul_mod_noop_right(y0 as int, xx + alpha, m);
        lemma_mul_mod_noop_right(y0 as int, s0, m);
        lemma_mod_twice(y0 * s0, m);
    }
    assert(b % m == t1) by {
        lemma_mul_mod_noop_right(y1 as int, xx - alpha, m);
        lemma_mul_mod_noop_right(y1 as int, s1, m);
        lemma_mod_twice(y1 * s1, m);
    }
    // and their sum
    assert((a + b) % m == sum) by {
        lemma_add_mod_noop(a, b, m);
        lemma_add_mod_noop(t0, t1, m);
        lemma_mod_twice(t0 + t1, m);
    }
    // multiply by the inverse of two
    assert(((a + b) * INV_TWO) % m == v) by {
        lemma_mul_mod_noop_left(a + b, INV_TWO as int, m);
        lemma_mul_mod_noop_left(sum, INV_TWO as int, m);
        lemma_mod_twice(sum * INV_TWO, m);
    }
    // and by the inverse power
    assert((((a + b) * INV_TWO) * xxi) % m == v2) by {
        lemma_mul_mod_noop((a + b) * INV_TWO, xxi, m);
        lemma_mul_mod_noop(v, xinv, m);
        lemma_mod_twice(v, m);
        lemma_mod_twice(xinv, m);
        lemma_mod_twice(v * xinv, m);
        lemma_mod_twice(xxi, m);
    }
}

/// The fold of honest evaluations is the even/odd mix of the underlying
/// polynomial: point i of the fold equals Pe(w^2i) + alpha * Po(w^2i).
#[verifier::rlimit(100)]
pub proof fn lemma_fold_consistent(
    c: Seq<u64>,
    w: u64,
    alpha: u64,
    i: nat,
    n: nat,
    y0: u64,
    y1: u64,
)
    requires
        2 <= n,
        i < n / 2,
        n % 2 == 0,
        in_field(w),
        in_field(alpha),
        pow(w as int, (n / 2) as nat) % (FIELD_MODULUS as int) == FIELD_MODULUS - 1,
        y0 as int == eval_int(c, pow(w as int, i)) % (FIELD_MODULUS as int),
        y1 as int == eval_int(c, pow(w as int, (i + n / 2) as nat)) % (FIELD_MODULUS as int),
    ensures
        fold_point_s(y0, y1, w as int, i, n, alpha) == (eval_int(
            even_coeffs(c),
            pow(w as int, (2 * i) as nat),
        ) + alpha * eval_int(odd_coeffs(c), pow(w as int, (2 * i) as nat))) % (
        FIELD_MODULUS as int),
{
    let m = FIELD_MODULUS as int;
    let wi = w as int;
    let half = (n / 2) as nat;
    let x = pow(wi, i);
    let xp = pow(wi, (i + half) as nat);
    let xi = pow(wi, (n - i) as nat);
    lemma_pow_nonneg(wi, i);
    lemma_pow_nonneg(wi, half);
    lemma_pow_nonneg(wi, (i + half) as nat);
    lemma_pow_nonneg(wi, (n - i) as nat);
    let ev = eval_int(even_coeffs(c), x * x);
    let ov = eval_int(odd_coeffs(c), x * x);
    lemma_eval_split(c, x);
    // the antipodal point is -x modulo m
    assert(xp % m == ((m - 1) * x) % m) by {
        lemma_pow_adds(wi, i, half);
        lemma_mul_mod_noop(x, pow(wi, half), m);
        lemma_mul_mod_noop(m - 1, x, m);
        lemma_mod_twice(x, m);
        lemma_small_mod((FIELD_MODULUS - 1) as nat, FIELD_MODULUS as nat);
        lemma_mul_is_commutative(x % m, m - 1);
        lemma_mul_is_commutative(m - 1, x % m);
    }
    // its square is congruent to x * x
    let neg = (m - 1) * x;
    assert((xp * xp) % m == (x * x) % m) by {
        lemma_mul_mod_noop(xp, xp, m);
        lemma_mul_mod_noop(neg, neg, m);
        assert(neg * neg == (m - 1) * (m - 1) * (x * x)) by (nonlinear_arith)
            requires
                neg == (m - 1) * x,
        ;
        lemma_mul_mod_noop_left((m - 1) * (m - 1), x * x, m);
        assert(((m - 1) * (m - 1)) % m == 1) by {
            assert((m - 1) * (m - 1) == (m - 2) * m + 1) by (nonlinear_arith);
            lemma_mod_multiples_vanish(m - 2, 1, m);
            lemma_small_mod(1, m as nat);
        }
        lemma_mul_mod_noop_left(1, x * x, m);
    }
    let ev2 = eval_int(even_coeffs(c), xp * xp);
    let ov2 = eval_int(odd_coeffs(c), xp * xp);
    lemma_eval_split(c, xp);
    lemma_eval_mod(even_coeffs(c), xp * xp, x * x);
    lemma_eval_mod(odd_coeffs(c), xp * xp, x * x);
    // y1 is congruent to ev - x * ov
    assert(y1 as int % m == (ev - x * ov) % m) by {
        assert(eval_int(c, xp) == ev2 + xp * ov2);
        // xp * ov2 is congruent to -(x * ov)
        assert((xp * ov2) % m == (-(x * ov)) % m) by {
            lemma_mul_mod_noop(xp, ov2, m);
            lemma_mul_mod_noop(neg, ov, m);
            assert(neg * ov == m * (x * ov) + (-(x * ov))) by (nonlinear_arith)
                requires
                    neg == (m - 1) * x,
            ;
            lemma_mod_multiples_vanish(x * ov, -(x * ov), m);
        }
        lemma_add_mod_noop_right(ev2, xp * ov2, m);
        lemma_add_mod_noop_right(ev, -(x * ov), m);
        assert(ev2 % m == ev % m);
        lemma_mod_twice(y1 as int, m);
        lemma_small_mod(y1 as nat, FIELD_MODULUS as nat);
        assert(ev + (-(x * ov)) == ev - x * ov);
    }
    assert(y0 as int % m == (ev + x * ov) % m) by {
        lemma_small_mod(y0 as nat, FIELD_MODULUS as nat);
    }
    // the mixed numerator is congruent to 2x(ev + alpha * ov)
    let d = y0 * (x + alpha) + y1 * (x - alpha);
    let dd = (ev + x * ov) * (x + alpha) + (ev - x * ov) * (x - alpha);
    assert(d % m == dd % m) by {
        lemma_mul_mod_noop_left(y0 as int, x + alpha, m);
        lemma_mul_mod_noop_left(ev + x * ov, x + alpha, m);
        lemma_mul_mod_noop_left(y1 as int, x - alpha, m);
        lemma_mul_mod_noop_left(ev - x * ov, x - alpha, m);
        lemma_small_mod(y0 as nat, FIELD_MODULUS as nat);
        lemma_small_mod(y1 as nat, FIELD_MODULUS as nat);
        lemma_add_mod_noop(y0 * (x + alpha), y1 * (x - alpha), m);
        lemma_add_mod_noop((ev + x * ov) * (x + alpha), (ev - x * ov) * (x - alpha), m);
    }
    assert(dd == 2 * (x * (ev + alpha * ov))) by (nonlinear_arith)
        requires
            dd == (ev + x * ov) * (x + alpha) + (ev - x * ov) * (x - alpha),
    ;
    // dividing by 2x: the full product telescopes to ev + alpha * ov
    let g = ev + alpha * ov;
    assert(fold_point_s(y0, y1, wi, i, n, alpha) == ((d * INV_TWO) * xi) % m);
    assert(((d * INV_TWO) * xi) % m == ((dd * INV_TWO) * xi) % m) by {
        lemma_mul_mod_noop_left(d, INV_TWO as int, m);
        lemma_mul_mod_noop_left(dd, INV_TWO as int, m);
        lemma_mul_mod_noop_left(d * INV_TWO, xi, m);
        lemma_mul_mod_noop_left(dd * INV_TWO, xi, m);
    }
    let t = 2 * INV_TWO * (x * xi);
    assert((dd * INV_TWO) * xi == g * t) by (nonlinear_arith)
        requires
            dd == 2 * (x * g),
            t == 2 * INV_TWO * (x * xi),
    ;
    assert(t % m == 1) by {
        assert(x * xi == pow(wi, n as nat)) by {
            lemma_pow_adds(wi, i, (n - i) as nat);
        }
        assert(pow(wi, n as nat) % m == 1) by {
            lemma_full_cycle(wi, half);
            assert(half + half == n);
        }
        lemma_mul_mod_noop(2 * INV_TWO, x * xi, m);
        assert((2 * 9223372034707292161int) % 18446744069414584321int == 1) by (nonlinear_arith);
        lemma_mod_twice(2 * INV_TWO * (x * xi), m);
        lemma_small_mod(1, m as nat);
    }
    assert((g * t) % m == g % m) by {
        lemma_mul_mod_noop(g, t, m);
        lemma_mul_basics(g % m);
        lemma_mod_twice(g, m);
    }
    // finally x * x is exactly the power at 2i
    assert(x * x == pow(wi, (2 * i) as nat)) by {
        lemma_pow_adds(wi, i, i);
        assert(i + i == 2 * i);
    }
}


/// A power of two times the matching power of the half residue is one.
proof fn lemma_scale_inverse(k: nat, n: int)
    requires
        n == pow2(k),
    ensures
        (n * (pow(INV_TWO as int, k) % (FIELD_MODULUS as int))) % (FIELD_MODULUS as int) == 1,
{
    let m = FIELD_MODULUS as int;
    lemma_pow2(k);
    lemma_pow_distributes(2, INV_TWO as int, k);
    lemma_pow_mod_noop(2 * INV_TWO, k, m);
    assert((2 * INV_TWO as int) % m == 1) by (nonlinear_arith)
        requires
            m == 18446744069414584321int,
            INV_TWO == 9223372034707292161u64,
    ;
    lemma1_pow(k);
    lemma_small_mod(1nat, FIELD_MODULUS as nat);
    lemma_mul_mod_noop_right(n, pow(INV_TWO as int, k), m);
    lemma_mod_twice(n * pow(INV_TWO as int, k), m);
    assert(pow(2, k) * pow(INV_TWO as int, k) == pow(2 * INV_TWO, k));
}

/// The canonical domain root has the two powers the transforms rest on:
/// its half-domain power is -1 and its full-domain power is 1.
pub proof fn lemma_omega_props(n: u64)
    requires
        is_smooth_order(n),
        n >= 2,
    ensures
        0 <= omega_of(n as int) < FIELD_MODULUS,
        pow(omega_of(n as int), (n / 2) as nat) % (FIELD_MODULUS as int) == FIELD_MODULUS - 1,
        pow(omega_of(n as int), n as nat) % (FIELD_MODULUS as int) == 1,
        n % 2 == 0,
{
    let m = FIELD_MODULUS as int;
    let k = choose|k: nat| k <= 32 && n as int == pow2(k);
    lemma2_to64();
    assert(k >= 1) by {
        if k == 0 {
            assert(pow2(0) == 1);
        }
    }
    lemma_pow2_subtracts(k, 32);
    assert(0x100000000int / n as int == pow2((32 - k) as nat)) by {
        assert(pow2(32) == 0x100000000);
    }
    crate::fields::lemma_root_powers(k, omega_of(n as int));
    lemma_pow2_adds((k - 1) as nat, 1);
    assert(n as int == 2 * pow2((k - 1) as nat));
    assert((n / 2) as nat == pow2((k - 1) as nat));
    assert(n as nat == pow2(k));
}

/// Folding is consistent with the polynomial: when the table holds the
/// transform of a coefficient vector and the folded table holds the fold
/// formula of its points, every folded point is the even part plus the
/// challenge times the odd part, evaluated on the squared domain.
pub proof fn lemma_fold_of_transform(
    c: Seq<u64>,
    evals: Seq<u64>,
    folded: Seq<u64>,
    n: u64,
    alpha: u64,
)
    requires
        is_smooth_order(n),
        n >= 2,
        in_field(alpha),
        evals.len() == n,
        folded.len() == n / 2,
        forall|i: int|
            0 <= i < n ==> (#[trigger] evals[i]) as int == eval_int(
                c,
                pow(omega_of(n as int), i as nat),
            ) % (FIELD_MODULUS as int),
        forall|i: int|
            0 <= i < n / 2 ==> (#[trigger] folded[i]) as int == fold_point_s(
                evals[i],
                evals[i + n / 2],
                omega_of(n as int),
                i as nat,
                n as nat,
                alpha,
            ),
    ensures
        forall|i: int|
            0 <= i < n / 2 ==> (#[trigger] folded[i]) as int == (eval_int(
                even_coeffs(c),
                pow(omega_of(n as int), (2 * i) as nat),
            ) + alpha * eval_int(odd_coeffs(c), pow(omega_of(n as int), (2 * i) as nat))) % (
            FIELD_MODULUS as int),
{
    lemma_omega_props(n);
    let w64 = omega_of(n as int) as u64;
    assert(w64 as int == omega_of(n as int));
    assert forall|i: int|
        0 <= i < n / 2 implies (#[trigger] folded[i]) as int == (eval_int(
        even_coeffs(c),
        pow(omega_of(n as int), (2 * i) as nat),
    ) + alpha * eval_int(odd_coeffs(c), pow(omega_of(n as int), (2 * i) as nat))) % (
    FIELD_MODULUS as int) by {
        assert(evals[i] as int == eval_int(c, pow(w64 as int, i as nat)) % (FIELD_MODULUS as int));
        assert(evals[i + n / 2] as int == eval_int(c, pow(w64 as int, (i + n / 2) as nat)) % (
        FIELD_MODULUS as int));
        lemma_fold_consistent(
            c,
            w64,
            alpha,
            i as nat,
            n as nat,
            evals[i],
            evals[i + n / 2],
        );
    }
}

/// A polynomial in evaluation form: point i is the value at the i-th power
/// of the domain root; the domain size is the length of the table.
pub struct PolynomialPoints {
    /// The degree of the underlying polynomial.
    pub degree: u64,
    /// Values on the domain, in root-power order.
    pub evals: Vec<u64>,
}

impl PolynomialPoints {
    /// Structural invariant: all values canonical.
    pub open spec fn wf(&self) -> bool {
        all_in_field(self.evals@)
    }

    /// Domain size.
    pub open spec fn domain_size(&self) -> nat {
        self.evals@.len()
    }

    /// The inverse transform: evaluates the table, read as coefficients,
    /// at the powers of the inverse domain root, and scales by the
    /// inverse of the domain size. On the output of the forward transform
    /// this recovers the coefficients.
    #[verifier::rlimit(100)]
    pub fn ifft(self) -> (r: PolynomialCoefficient)
        requires
            self.wf(),
            smooth_int(self.evals@.len() as int),
            self.evals@.len() >= 1,
            self.degree + 1 <= self.evals@.len(),
        ensures
            r.wf(),
            r.degree == self.degree,
            r.coefficients@.len() == self.evals@.len(),
            forall|j: int|
                0 <= j < self.evals@.len() ==> (#[trigger] r.coefficients@[j]) as int == (eval_int(
                    self.evals@,
                    pow(omega_inv_of(self.evals@.len() as int), j as nat),
                ) * scale_inv_of(self.evals@.len() as int)) % (FIELD_MODULUS as int),
            (self.evals@.len() as int * scale_inv_of(self.evals@.len() as int)) % (
            FIELD_MODULUS as int) == 1,
    {
        let ghost m = FIELD_MODULUS as int;
        let n: usize = self.evals.len();
        let n64: u64 = n as u64;
        let w = match root_of_unity(n64) {
            Ok(w) => w,
            Err(_) => {
                proof {
                    assert(is_smooth_order(n64)) by {
                        let k = choose|k: nat| k <= 32 && n as int == pow2(k);
                        assert(k <= 32 && n64 as int == pow2(k));
                    }
                    assert(false);
                }
                return PolynomialCoefficient { degree: 0, coefficients: Vec::new() };
            },
        };
        let winv = felt_pow(w, n64 - 1);
        // the exponent of the domain size
        let mut k: u64 = 0;
        let mut s: u64 = 1;
        proof {
            lemma2_to64();
        }
        while s < n64 && k < 32
            invariant
                k <= 32,
                1 <= s <= 0x100000000u64,
                s as int == pow2(k as nat),
                forall|j: nat| j < k ==> pow2(j) < n64,
            decreases 32 - k,
        {
            proof {
                lemma_pow2_adds(k as nat, 1);
                lemma2_to64();
                assert forall|j: nat| j < k + 1 implies pow2(j) < n64 by {
                    if j == k {
                    } else {
                        assert(pow2(j) < n64);
                    }
                }
            }
            s = s * 2;
            k = k + 1;
        }
        proof {
            let kk = choose|kk: nat| kk <= 32 && n as int == pow2(kk);
            if s != n64 {
                if kk < k as nat {
                    assert(pow2(kk) < n64);
                }
                if kk > k as nat {
                    lemma_pow2_strictly_increases(k as nat, kk);
                }
                assert(false);
            }
            assert(s == n64);
            crate::fields::lemma_pow2_unique(kk, k as nat);
            assert(k as nat == log2_of(n as int)) by {
                let lg = log2_of(n as int);
                assert(n as int == pow2(lg)) by {
                    assert(n as int == pow2(kk));
                }
                crate::fields::lemma_pow2_unique(lg, k as nat);
            }
        }
        let ninv = felt_pow(INV_TWO, k);
        proof {
            // the inverse root squares down the domain like the root does
            if n >= 2 {
                lemma_omega_props(n64);
                let wi = w as int;
                lemma_pow_mod_noop(pow(wi, (n64 - 1) as nat), (n / 2) as nat, m);
                lemma_pow_multiplies(wi, (n64 - 1) as nat, (n / 2) as nat);
                assert((n64 - 1) as nat * ((n / 2) as nat) == (n / 2) + (n / 2 - 1) * n) by (
                nonlinear_arith)
                    requires
                        n >= 2,
                        n64 == n,
                        n % 2 == 0,
                ;
                lemma_pow_cycle(wi, n as nat, (n / 2 - 1) as nat, (n / 2) as nat);
            }
        }
        let raw = fft_core(&self.evals, winv, n);
        let mut out: Vec<u64> = Vec::new();
        let mut j: usize = 0;
        while j < n
            invariant
                j <= n,
                n == self.evals@.len(),
                raw@.len() == n,
                all_in_field(raw@),
                in_field(ninv),
                ninv as int == scale_inv_of(n as int),
                out@.len() == j,
                all_in_field(out@),
                winv as int == omega_inv_of(n as int),
                m == FIELD_MODULUS as int,
                forall|x: int|
                    0 <= x < n ==> (#[trigger] raw@[x]) as int == eval_int(
                        self.evals@,
                        pow(winv as int, x as nat),
                    ) % m,
                forall|x: int|
                    0 <= x < j ==> (#[trigger] out@[x]) as int == (eval_int(
                        self.evals@,
                        pow(omega_inv_of(n as int), x as nat),
                    ) * scale_inv_of(n as int)) % m,
            decreases n - j,
        {
            let v = felt_mul(raw[j], ninv);
            proof {
                // fold the residue of the raw value into the product
                let ev = eval_int(self.evals@, pow(winv as int, j as nat));
                lemma_mul_mod_noop_left(ev, ninv as int, m);
                lemma_mul_mod_noop_left(raw@[j as int] as int, ninv as int, m);
                lemma_mod_twice(raw@[j as int] as int * ninv as int, m);
                lemma_small_mod(raw@[j as int] as nat, FIELD_MODULUS as nat);
            }
            out.push(v);
            j = j + 1;
        }
        proof {
            // the domain size times its inverse residue is one
            lemma_scale_inverse(k as nat, n as int);
        }
        PolynomialCoefficient { degree: self.degree, coefficients: out }
    }

    /// Folds the evaluation table under a challenge: the half-size table
    /// whose point i carries the fold formula at the i-th domain point.
    /// Fails exactly when the challenge lies in the evaluation domain.
    #[verifier::rlimit(100)]
    pub fn fold(&self, alpha: u64) -> (r: Result<PolynomialPoints, ProofError>)
        requires
            self.wf(),
            in_field(alpha),
            self.evals@.len() >= 2,
            smooth_int(self.evals@.len() as int),
        ensures
            r matches Ok(q) ==> {
                let n = self.evals@.len() as int;
                &&& q.degree == self.degree / 2
                &&& q.evals@.len() == n / 2
                &&& q.wf()
                &&& forall|i: int|
                    0 <= i < n / 2 ==> (#[trigger] q.evals@[i]) as int == fold_point_s(
                        self.evals@[i],
                        self.evals@[i + n / 2],
                        omega_of(n),
                        i as nat,
                        n as nat,
                        alpha,
                    )
            },
            r is Err <==> exists|i: int|
                0 <= i < self.evals@.len() && alpha as int == #[trigger] pow(
                    omega_of(self.evals@.len() as int),
                    i as nat,
                ) % (FIELD_MODULUS as int),
            r matches Err(e) ==> e == ProofError::ConfigError,
    {
        let ghost m = FIELD_MODULUS as int;
        let n: usize = self.evals.len();
        let n64: u64 = n as u64;
        let w = match root_of_unity(n64) {
            Ok(w) => w,
            Err(_) => {
                proof {
                    assert(is_smooth_order(n64)) by {
                        let k = choose|k: nat| k <= 32 && n as int == pow2(k);
                        assert(k <= 32 && n64 as int == pow2(k));
                    }
                    assert(false);
                }
                return Err(ProofError::ConfigError);
            },
        };
        let mut i: usize = 0;
        while i < n
            invariant
                i <= n,
                n == self.evals@.len(),
                in_field(w),
                w as int == omega_of(n as int),
                forall|j: int|
                    0 <= j < i ==> alpha as int != #[trigger] pow(w as int, j as nat) % (
                    FIELD_MODULUS as int),
            decreases n - i,
        {
            let x = felt_pow(w, i as u64);
            if alpha == x {
                proof {
                    let j: int = i as int;
                    assert(0 <= j < self.evals@.len());
                    assert(alpha as int == pow(omega_of(self.evals@.len() as int), j as nat) % (
                    FIELD_MODULUS as int));
                }
                return Err(ProofError::ConfigError);
            }
            i = i + 1;
        }
        let half: usize = n / 2;
        proof {
            let k = choose|k: nat| k <= 32 && n as int == pow2(k);
            lemma2_to64();
            if k == 0 {
                assert(false);
            }
            lemma_pow2_adds((k - 1) as nat, 1);
            assert(n as int == 2 * pow2((k - 1) as nat));
        }
        let mut out: Vec<u64> = Vec::new();
        let mut idx: usize = 0;
        while idx < half
            invariant
                idx <= half,
                n == 2 * half,
                1 <= half,
                n == self.evals@.len(),
                self.wf(),
                in_field(alpha),
                in_field(w),
                w as int == omega_of(n as int),
                pow(w as int, half as nat) % (FIELD_MODULUS as int) == FIELD_MODULUS - 1,
                out@.len() == idx,
                all_in_field(out@),
                forall|j: int|
                    0 <= j < idx ==> (#[trigger] out@[j]) as int == fold_point_s(
                        self.evals@[j],
                        self.evals@[j + half],
                        w as int,
                        j as nat,
                        n as nat,
                        alpha,
                    ),
            decreases half - idx,
        {
            let x = felt_pow(w, idx as u64);
            let xinv = felt_pow(w, (n - idx) as u64);
            let s0 = felt_add(x, alpha);
            let s1 = felt_sub(x, alpha);
            let t0 = felt_mul(self.evals[idx], s0);
            let t1 = felt_mul(self.evals[idx + half], s1);
            let sum = felt_add(t0, t1);
            proof {
                assert(in_field(INV_TWO));
            }
            let v = felt_mul(sum, INV_TWO);
            let v2 = felt_mul(v, xinv);
            proof {
                lemma_fold_point(
                    self.evals@[idx as int],
                    self.evals@[idx as int + half],
                    w,
                    idx as nat,
                    n as nat,
                    alpha,
                    x as int,
                    xinv as int,
                    s0 as int,
                    s1 as int,
                    t0 as int,
                    t1 as int,
                    sum as int,
                    v as int,
                    v2 as int,
                );
            }
            out.push(v2);
            idx = idx + 1;
        }
        Ok(PolynomialPoints { degree: self.degree / 2, evals: out })
    }
}

} // verus!
