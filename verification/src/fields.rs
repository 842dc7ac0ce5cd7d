//! Prime-field arithmetic for the 64-bit STARK-friendly field.
//!
//! Elements are residues held in a `u64` strictly below [`FIELD_MODULUS`].
//! Every operation states its result as the mathematical residue, so the
//! transform, fold and verifier layers can reason about exact values.

use vstd::prelude::*;
use vstd::arithmetic::power::*;
use vstd::arithmetic::power2::*;
use vstd::arithmetic::div_mod::*;
use vstd::arithmetic::mul::*;

use crate::ProofError;

verus! {

/// The prime 2^64 - 2^32 + 1, whose multiplicative group has a subgroup of
/// order 2^32, which makes radix-2 transforms possible.
pub const FIELD_MODULUS: u64 = 18446744069414584321;

/// A generator of the subgroup of order 2^32: the value 7^((p-1) / 2^32) mod p,
/// where 7 generates the whole multiplicative group.
pub const TWO_ADIC_ROOT: u64 = 1753635133440165772;

/// The multiplicative group has 2-adic order 2^32.
pub const TWO_ADICITY: u64 = 32;

/// Canonical byte width of an encoded field element.
pub const FIELD_BYTES: u64 = 8;

/// The residue of 1/2: doubling it gives 1 modulo the field prime.
pub const INV_TWO: u64 = 9223372034707292161;

/// Configuration of the 64-bit STARK-friendly prime field instantiated here.
pub struct FrConfig64;

/// Configuration of a 192-bit prime field: only its encoded width is
/// meaningful to the protocol layer, which sizes transcripts by byte width.
pub struct FrConfig192;

impl FrConfig64 {
    /// The field prime.
    pub fn modulus() -> (r: u64)
        ensures
            r == FIELD_MODULUS,
    {
        FIELD_MODULUS
    }

    /// Width in bytes of one canonically encoded element.
    pub fn element_bytes() -> (r: u64)
        ensures
            r == FIELD_BYTES,
    {
        FIELD_BYTES
    }
}

impl FrConfig192 {
    /// Width in bytes of one canonically encoded element of the 192-bit field.
    pub fn element_bytes() -> (r: u64)
        ensures
            r == 24u64,
    {
        24u64
    }
}

/// An element is in canonical form when it lies strictly below the prime.
pub open spec fn in_field(a: u64) -> bool {
    a < FIELD_MODULUS
}

/// `n` is a power of two no larger than 2^32, so an order-`n` subgroup exists.
pub open spec fn is_smooth_order(n: u64) -> bool {
    exists|k: nat| k <= 32 && n as int == pow2(k)
}

/// One squaring step: if x is b^(2^k) mod p then (x*x) mod p is b^(2^(k+1)) mod p.
proof fn lemma_square_step(b: int, k: nat, x: int)
    requires
        pow(b, pow2(k)) % (FIELD_MODULUS as int) == x,
    ensures
        pow(b, pow2(k + 1)) % (FIELD_MODULUS as int) == (x * x) % (FIELD_MODULUS as int),
{
    let ghost m = FIELD_MODULUS as int;
    lemma_pow2_adds(k, 1);
    assert(pow2(k + 1) == pow2(k) + pow2(k)) by {
        lemma2_to64();
        assert(pow2(1) == 2);
        lemma_mul_is_commutative(pow2(k) as int, 2);
    }
    lemma_pow_adds(b, pow2(k), pow2(k));
    lemma_mul_mod_noop(pow(b, pow2(k)), pow(b, pow2(k)), m);
}

/// The two concrete anchor facts of the two-adic generator: raising it to
/// 2^31 gives -1 and raising it to 2^32 gives 1. The proof walks a ladder
/// of thirty-two concrete squarings.
pub proof fn lemma_two_adic_root_orders()
    ensures
        pow(TWO_ADIC_ROOT as int, pow2(31)) % (FIELD_MODULUS as int) == FIELD_MODULUS - 1,
        pow(TWO_ADIC_ROOT as int, pow2(32)) % (FIELD_MODULUS as int) == 1,
{
    let h = TWO_ADIC_ROOT as int;
    let ghost m = FIELD_MODULUS as int;
    assert(pow(h, pow2(0)) % m == h) by {
        lemma2_to64();
        lemma_pow1(h);
    }
    lemma_square_step(h, 0, 1753635133440165772);
    assert((1753635133440165772int * 1753635133440165772) % 18446744069414584321int == 4614640910117430873) by (nonlinear_arith);
    lemma_square_step(h, 1, 4614640910117430873);
    assert((4614640910117430873int * 4614640910117430873) % 18446744069414584321int == 9123114210336311365) by (nonlinear_arith);
    lemma_square_step(h, 2, 9123114210336311365);
    assert((9123114210336311365int * 9123114210336311365) % 18446744069414584321int == 16116352524544190054) by (nonlinear_arith);
    lemma_square_step(h, 3, 16116352524544190054);
    assert((16116352524544190054int * 16116352524544190054) % 18446744069414584321int == 6414415596519834757) by (nonlinear_arith);
    lemma_square_step(h, 4, 6414415596519834757);
    assert((6414415596519834757int * 6414415596519834757) % 18446744069414584321int == 1213594585890690845) by (nonlinear_arith);
    lemma_square_step(h, 5, 1213594585890690845);
    assert((1213594585890690845int * 1213594585890690845) % 18446744069414584321int == 17096174751763063430) by (nonlinear_arith);
    lemma_square_step(h, 6, 17096174751763063430);
    assert((17096174751763063430int * 17096174751763063430) % 18446744069414584321int == 5456943929260765144) by (nonlinear_arith);
    lemma_square_step(h, 7, 5456943929260765144);
    assert((5456943929260765144int * 5456943929260765144) % 18446744069414584321int == 9713644485405565297) by (nonlinear_arith);
    lemma_square_step(h, 8, 9713644485405565297);
    assert((9713644485405565297int * 9713644485405565297) % 18446744069414584321int == 16905767614792059275) by (nonlinear_arith);
    lemma_square_step(h, 9, 16905767614792059275);
    assert((16905767614792059275int * 16905767614792059275) % 18446744069414584321int == 5416168637041100469) by (nonlinear_arith);
    lemma_square_step(h, 10, 5416168637041100469);
    assert((5416168637041100469int * 5416168637041100469) % 18446744069414584321int == 17654865857378133588) by (nonlinear_arith);
    lemma_square_step(h, 11, 17654865857378133588);
    assert((17654865857378133588int * 17654865857378133588) % 18446744069414584321int == 3511170319078647661) by (nonlinear_arith);
    lemma_square_step(h, 12, 3511170319078647661);
    assert((3511170319078647661int * 3511170319078647661) % 18446744069414584321int == 18146160046829613826) by (nonlinear_arith);
    lemma_square_step(h, 13, 18146160046829613826);
    assert((18146160046829613826int * 18146160046829613826) % 18446744069414584321int == 9306717745644682924) by (nonlinear_arith);
    lemma_square_step(h, 14, 9306717745644682924);
    assert((9306717745644682924int * 9306717745644682924) % 18446744069414584321int == 12380578893860276750) by (nonlinear_arith);
    lemma_square_step(h, 15, 12380578893860276750);
    assert((12380578893860276750int * 12380578893860276750) % 18446744069414584321int == 6115771955107415310) by (nonlinear_arith);
    lemma_square_step(h, 16, 6115771955107415310);
    assert((6115771955107415310int * 6115771955107415310) % 18446744069414584321int == 17776499369601055404) by (nonlinear_arith);
    lemma_square_step(h, 17, 17776499369601055404);
    assert((17776499369601055404int * 17776499369601055404) % 18446744069414584321int == 16207902636198568418) by (nonlinear_arith);
    lemma_square_step(h, 18, 16207902636198568418);
    assert((16207902636198568418int * 16207902636198568418) % 18446744069414584321int == 1532612707718625687) by (nonlinear_arith);
    lemma_square_step(h, 19, 1532612707718625687);
    assert((1532612707718625687int * 1532612707718625687) % 18446744069414584321int == 17492915097719143606) by (nonlinear_arith);
    lemma_square_step(h, 20, 17492915097719143606);
    assert((17492915097719143606int * 17492915097719143606) % 18446744069414584321int == 455906449640507599) by (nonlinear_arith);
    lemma_square_step(h, 21, 455906449640507599);
    assert((455906449640507599int * 455906449640507599) % 18446744069414584321int == 11353340290879379826) by (nonlinear_arith);
    lemma_square_step(h, 22, 11353340290879379826);
    assert((11353340290879379826int * 11353340290879379826) % 18446744069414584321int == 1803076106186727246) by (nonlinear_arith);
    lemma_square_step(h, 23, 1803076106186727246);
    assert((1803076106186727246int * 1803076106186727246) % 18446744069414584321int == 13797081185216407910) by (nonlinear_arith);
    lemma_square_step(h, 24, 13797081185216407910);
    assert((13797081185216407910int * 13797081185216407910) % 18446744069414584321int == 17870292113338400769) by (nonlinear_arith);
    lemma_square_step(h, 25, 17870292113338400769);
    assert((17870292113338400769int * 17870292113338400769) % 18446744069414584321int == 549755813888) by (nonlinear_arith);
    lemma_square_step(h, 26, 549755813888);
    assert((549755813888int * 549755813888) % 18446744069414584321int == 70368744161280) by (nonlinear_arith);
    lemma_square_step(h, 27, 70368744161280);
    assert((70368744161280int * 70368744161280) % 18446744069414584321int == 17293822564807737345) by (nonlinear_arith);
    lemma_square_step(h, 28, 17293822564807737345);
    assert((17293822564807737345int * 17293822564807737345) % 18446744069414584321int == 18446744069397807105) by (nonlinear_arith);
    lemma_square_step(h, 29, 18446744069397807105);
    assert((18446744069397807105int * 18446744069397807105) % 18446744069414584321int == 281474976710656) by (nonlinear_arith);
    lemma_square_step(h, 30, 281474976710656);
    assert((281474976710656int * 281474976710656) % 18446744069414584321int == 18446744069414584320) by (nonlinear_arith);
    lemma_square_step(h, 31, 18446744069414584320);
    assert((18446744069414584320int * 18446744069414584320) % 18446744069414584321int == 1) by (nonlinear_arith);
}

/// Reduce an arbitrary machine word into the field.
pub fn from_u64(x: u64) -> (r: u64)
    ensures
        in_field(r),
        r as int == (x as int) % (FIELD_MODULUS as int),
{
    x % FIELD_MODULUS
}

/// The additive identity.
pub fn zero() -> (r: u64)
    ensures
        r == 0u64,
        in_field(r),
{
    0u64
}

/// The multiplicative identity.
pub fn one() -> (r: u64)
    ensures
        r == 1u64,
        in_field(r),
{
    1u64
}

/// Field addition.
pub fn felt_add(a: u64, b: u64) -> (r: u64)
    requires
        in_field(a),
        in_field(b),
    ensures
        in_field(r),
        r as int == (a as int + b as int) % (FIELD_MODULUS as int),
{
    let s: u128 = (a as u128 + b as u128) % (FIELD_MODULUS as u128);
    s as u64
}

/// Field subtraction.
pub fn felt_sub(a: u64, b: u64) -> (r: u64)
    requires
        in_field(a),
        in_field(b),
    ensures
        in_field(r),
        r as int == (a as int - b as int) % (FIELD_MODULUS as int),
{
    let s: u128 = (a as u128 + FIELD_MODULUS as u128 - b as u128) % (FIELD_MODULUS as u128);
    proof {
        lemma_mod_add_multiples_vanish(a as int - b as int, FIELD_MODULUS as int);
    }
    s as u64
}

/// Field negation.
pub fn felt_neg(a: u64) -> (r: u64)
    requires
        in_field(a),
    ensures
        in_field(r),
        r as int == (0 - a as int) % (FIELD_MODULUS as int),
{
    felt_sub(0u64, a)
}

/// Field multiplication.
pub fn felt_mul(a: u64, b: u64) -> (r: u64)
    requires
        in_field(a),
        in_field(b),
    ensures
        in_field(r),
        r as int == (a as int * b as int) % (FIELD_MODULUS as int),
{
    proof {
        assert(a as int * b as int <= 18446744073709551615int * 18446744073709551615int
            && a as int * b as int >= 0) by (nonlinear_arith)
            requires
                a <= 18446744073709551615u64,
                b <= 18446744073709551615u64,
        ;
        assert(18446744073709551615int * 18446744073709551615int
            < 340282366920938463463374607431768211455int) by (nonlinear_arith);
    }
    let p: u128 = (a as u128) * (b as u128);
    let s: u128 = p % (FIELD_MODULUS as u128);
    s as u64
}

/// Field doubling.
pub fn felt_double(a: u64) -> (r: u64)
    requires
        in_field(a),
    ensures
        in_field(r),
        r as int == (2 * a as int) % (FIELD_MODULUS as int),
{
    felt_add(a, a)
}

/// Modular exponentiation by square and multiply.
pub fn felt_pow(b: u64, e: u64) -> (r: u64)
    requires
        in_field(b),
    ensures
        in_field(r),
        r as int == pow(b as int, e as nat) % (FIELD_MODULUS as int),
{
    let ghost m = FIELD_MODULUS as int;
    let mut result: u64 = 1;
    let mut base: u64 = b;
    let mut exp: u64 = e;
    proof {
        lemma_mul_mod_noop_left(1, pow(b as int, e as nat), m);
        lemma_mul_is_commutative(1, pow(b as int, e as nat));
    }
    while exp > 0
        invariant
            in_field(result),
            in_field(base),
            (result as int * pow(base as int, exp as nat)) % m == pow(b as int, e as nat) % m,
            m == FIELD_MODULUS as int,
        decreases exp,
    {
        let ghost r0 = result as int;
        let ghost b0 = base as int;
        let ghost e0 = exp as nat;
        assert(exp & 1 == exp % 2) by (bit_vector);
        assert(exp >> 1 == exp / 2) by (bit_vector);
        let half: u64 = exp >> 1;
        proof {
            // pow(b0, e0) == pow(b0 * b0, e0 / 2) * (odd ? b0 : 1)
            lemma_square_expand(b0, e0);
        }
        if exp & 1 == 1 {
            result = felt_mul(result, base);
            proof {
                // r0 * (b0 * pow(b0*b0, e0/2)) == (r0 * b0) * pow(b0*b0, e0/2)
                lemma_mul_is_associative(r0, b0, pow(b0 * b0, (e0 / 2) as nat));
                lemma_mul_mod_noop_left(r0 * b0, pow(b0 * b0, (e0 / 2) as nat), m);
                lemma_mul_mod_noop_right(r0, pow(b0, e0), m);
                lemma_mul_mod_noop_right(r0, b0 * pow(b0 * b0, (e0 / 2) as nat), m);
            }
        } else {
            proof {
                lemma_mul_mod_noop_right(r0, pow(b0, e0), m);
                lemma_mul_mod_noop_right(r0, pow(b0 * b0, (e0 / 2) as nat), m);
            }
        }
        base = felt_mul(base, base);
        proof {
            // replacing the base by its square modulo p keeps the invariant
            lemma_pow_mod_noop(b0 * b0, (e0 / 2) as nat, m);
            lemma_mul_mod_noop_right(result as int, pow(b0 * b0, (e0 / 2) as nat), m);
            lemma_mul_mod_noop_right(result as int, pow(base as int, (e0 / 2) as nat), m);
        }
        exp = half;
    }
    proof {
        lemma_pow0(base as int);
        lemma_mul_basics(result as int);
    }
    result
}

/// pow(b, e) splits into the square of the base at half the exponent,
/// with one extra factor of the base when the exponent is odd.
proof fn lemma_square_expand(b: int, e: nat)
    ensures
        e % 2 == 0 ==> pow(b, e) == pow(b * b, e / 2),
        e % 2 == 1 ==> pow(b, e) == b * pow(b * b, e / 2),
{
    lemma_square_is_pow2(b);
    lemma_pow_multiplies(b, 2, e / 2);
    assert(pow(b * b, e / 2) == pow(b, 2 * (e / 2)));
    if e % 2 == 0 {
        assert(2 * (e / 2) == e);
    } else {
        assert(2 * (e / 2) + 1 == e);
        lemma_pow1(b);
        lemma_pow_adds(b, 1, 2 * (e / 2));
    }
}

/// Multiplicative inverse; `None` exactly when the Fermat candidate fails,
/// which includes the zero input.
pub fn felt_inverse(a: u64) -> (r: Option<u64>)
    requires
        in_field(a),
    ensures
        r matches Some(v) ==> in_field(v) && (a as int * v as int) % (FIELD_MODULUS as int) == 1
            && v as int == pow(a as int, (FIELD_MODULUS - 2) as nat) % (FIELD_MODULUS as int),
        r is None <==> (a as int * (pow(a as int, (FIELD_MODULUS - 2) as nat) % (
        FIELD_MODULUS as int))) % (FIELD_MODULUS as int) != 1,
        a == 0 ==> r is None,
{
    let cand = felt_pow(a, FIELD_MODULUS - 2);
    let check = felt_mul(a, cand);
    if check == 1 {
        Some(cand)
    } else {
        None
    }
}

/// Equality of canonical elements.
pub fn equals(a: u64, b: u64) -> (r: bool)
    ensures
        r == (a == b),
{
    a == b
}

/// A primitive n-th root of unity, for n a power of two up to 2^32; any
/// other order is refused. The root is the two-adic generator raised to
/// 2^32 / n, and its n/2 power is -1, which the transform layers rely on.
pub fn root_of_unity(n: u64) -> (r: Result<u64, ProofError>)
    ensures
        r matches Ok(w) ==> is_smooth_order(n) && in_field(w) && n >= 1 && w as int == pow(
            TWO_ADIC_ROOT as int,
            (0x100000000int / n as int) as nat,
        ) % (FIELD_MODULUS as int) && pow(w as int, n as nat) % (FIELD_MODULUS as int) == 1 && (n
            >= 2 ==> pow(w as int, (n / 2) as nat) % (FIELD_MODULUS as int) == FIELD_MODULUS - 1),
        r is Err <==> !is_smooth_order(n),
        r matches Err(c) ==> c == ProofError::ConfigError,
{
    let ghost m = FIELD_MODULUS as int;
    let mut k: u64 = 0;
    let mut s: u64 = 1;
    proof {
        lemma2_to64();
    }
    while s < n && k < 32
        invariant
            k <= 32,
            1 <= s <= 0x100000000u64,
            s as int == pow2(k as nat),
            forall|j: nat| j < k ==> pow2(j) < n,
        decreases 32 - k,
    {
        proof {
            lemma_pow2_adds(k as nat, 1);
            lemma2_to64();
            assert(pow2(1) == 2);
            lemma_mul_is_commutative(pow2(k as nat) as int, 2);
            assert forall|j: nat| j < k + 1 implies pow2(j) < n by {
                if j == k {
                } else {
                    assert(pow2(j) < n);
                }
            }
        }
        s = s * 2;
        k = k + 1;
    }
    if s == n {
        proof {
            assert(is_smooth_order(n)) by {
                assert(k <= 32 && n as int == pow2(k as nat));
            }
        }
        let e: u64 = 0x100000000u64 / s;
        proof {
            lemma_pow2_subtracts(k as nat, 32);
            lemma2_to64();
            assert(pow2(32) == 0x100000000);
            assert(e as int == pow2((32 - k) as nat));
        }
        let w = felt_pow(TWO_ADIC_ROOT, e);
        proof {
            lemma_root_powers(k as nat, w as int);
        }
        Ok(w)
    } else {
        proof {
            if s > n {
                // every power of two either sits below n or strictly above it
                assert forall|j: nat| j <= 32 implies pow2(j) != n by {
                    if j >= k {
                        lemma_pow2_strictly_increases_or_equal(k as nat, j);
                    }
                }
            } else {
                // k reached 32 with pow2(32) still below n
                assert forall|j: nat| j <= 32 implies pow2(j) != n by {
                    lemma_pow2_strictly_increases_or_equal(j, 32);
                }
            }
            assert(!is_smooth_order(n));
        }
        Err(ProofError::ConfigError)
    }
}

/// Exponents of two are unique.
pub proof fn lemma_pow2_unique(a: nat, b: nat)
    requires
        pow2(a) == pow2(b),
    ensures
        a == b,
{
    if a < b {
        lemma_pow2_strictly_increases(a, b);
    }
    if b < a {
        lemma_pow2_strictly_increases(b, a);
    }
}

/// pow2 is monotone, allowing equal indices.
proof fn lemma_pow2_strictly_increases_or_equal(e1: nat, e2: nat)
    requires
        e1 <= e2,
    ensures
        pow2(e1) <= pow2(e2),
{
    if e1 < e2 {
        lemma_pow2_strictly_increases(e1, e2);
    }
}

/// The root returned for order 2^k has the two anchor powers the transforms
/// need: its 2^(k-1) power is -1 and its 2^k power is 1.
pub(crate) proof fn lemma_root_powers(k: nat, w: int)
    requires
        k <= 32,
        w == pow(TWO_ADIC_ROOT as int, pow2((32 - k) as nat)) % (FIELD_MODULUS as int),
    ensures
        pow(w as int, pow2(k)) % (FIELD_MODULUS as int) == 1,
        k >= 1 ==> pow(w as int, pow2((k - 1) as nat)) % (FIELD_MODULUS as int) == FIELD_MODULUS
            - 1,
{
    let h = TWO_ADIC_ROOT as int;
    let ghost m = FIELD_MODULUS as int;
    lemma_two_adic_root_orders();
    lemma_pow_mod_noop(pow(h, pow2((32 - k) as nat)), pow2(k), m);
    lemma_pow_multiplies(h, pow2((32 - k) as nat), pow2(k));
    lemma_pow2_adds((32 - k) as nat, k);
    assert((32 - k) + k == 32);
    if k >= 1 {
        lemma_pow_mod_noop(pow(h, pow2((32 - k) as nat)), pow2((k - 1) as nat), m);
        lemma_pow_multiplies(h, pow2((32 - k) as nat), pow2((k - 1) as nat));
        lemma_pow2_adds((32 - k) as nat, (k - 1) as nat);
        assert((32 - k) + (k - 1) == 31);
    }
}

/// Mathematical value of a big-endian byte string.
pub open spec fn be_val(s: Seq<u8>) -> int
    decreases s.len(),
{
    if s.len() == 0 {
        0
    } else {
        be_val(s.drop_last()) * 256 + s.last()
    }
}

/// The eight big-endian bytes of a machine word, as a sequence.
pub open spec fn u64_be_spec(a: u64) -> Seq<u8> {
    seq![
        ((a >> 56) & 0xff) as u8,
        ((a >> 48) & 0xff) as u8,
        ((a >> 40) & 0xff) as u8,
        ((a >> 32) & 0xff) as u8,
        ((a >> 24) & 0xff) as u8,
        ((a >> 16) & 0xff) as u8,
        ((a >> 8) & 0xff) as u8,
        (a & 0xff) as u8,
    ]
}

/// Canonical fixed-width big-endian encoding of a field element.
pub fn to_be_bytes(a: u64) -> (r: Vec<u8>)
    ensures
        r@.len() == FIELD_BYTES,
        r@ == u64_be_spec(a),
        be_val(r@) == a as int,
{
    let mut out: Vec<u8> = Vec::new();
    let b0: u64 = (a >> 56) & 0xff;
    let b1: u64 = (a >> 48) & 0xff;
    let b2: u64 = (a >> 40) & 0xff;
    let b3: u64 = (a >> 32) & 0xff;
    let b4: u64 = (a >> 24) & 0xff;
    let b5: u64 = (a >> 16) & 0xff;
    let b6: u64 = (a >> 8) & 0xff;
    let b7: u64 = a & 0xff;
    assert(b0 < 256 && b1 < 256 && b2 < 256 && b3 < 256 && b4 < 256 && b5 < 256 && b6 < 256 && b7
        < 256) by (bit_vector)
        requires
            b0 == (a >> 56) & 0xff,
            b1 == (a >> 48) & 0xff,
            b2 == (a >> 40) & 0xff,
            b3 == (a >> 32) & 0xff,
            b4 == (a >> 24) & 0xff,
            b5 == (a >> 16) & 0xff,
            b6 == (a >> 8) & 0xff,
            b7 == a & 0xff,
    ;
    assert(a == ((((((b0 * 256 + b1) * 256 + b2) * 256 + b3) * 256 + b4) * 256 + b5) * 256 + b6)
        * 256 + b7) by (bit_vector)
        requires
            b0 == (a >> 56) & 0xff,
            b1 == (a >> 48) & 0xff,
            b2 == (a >> 40) & 0xff,
            b3 == (a >> 32) & 0xff,
            b4 == (a >> 24) & 0xff,
            b5 == (a >> 16) & 0xff,
            b6 == (a >> 8) & 0xff,
            b7 == a & 0xff,
    ;
    out.push(b0 as u8);
    out.push(b1 as u8);
    out.push(b2 as u8);
    out.push(b3 as u8);
    out.push(b4 as u8);
    out.push(b5 as u8);
    out.push(b6 as u8);
    out.push(b7 as u8);
    proof {
        lemma_be_val_unfold8(out@, b0, b1, b2, b3, b4, b5, b6, b7);
        assert(out@ =~= u64_be_spec(a));
    }
    out
}

/// Unfolds the big-endian value of an eight-byte string.
proof fn lemma_be_val_unfold8(s: Seq<u8>, b0: u64, b1: u64, b2: u64, b3: u64, b4: u64, b5: u64, b6: u64, b7: u64)
    requires
        s.len() == 8,
        s[0] == b0 as u8 && b0 < 256,
        s[1] == b1 as u8 && b1 < 256,
        s[2] == b2 as u8 && b2 < 256,
        s[3] == b3 as u8 && b3 < 256,
        s[4] == b4 as u8 && b4 < 256,
        s[5] == b5 as u8 && b5 < 256,
        s[6] == b6 as u8 && b6 < 256,
        s[7] == b7 as u8 && b7 < 256,
    ensures
        be_val(s) == ((((((b0 * 256 + b1) * 256 + b2) * 256 + b3) * 256 + b4) * 256 + b5) * 256
            + b6) * 256 + b7,
{
    reveal_with_fuel(be_val, 9);
    assert(s.drop_last().drop_last().drop_last().drop_last().drop_last().drop_last().drop_last().drop_last()
        =~= Seq::<u8>::empty());
}

/// Big-endian interpretation of an arbitrary byte string, reduced into the
/// field.
pub fn from_be_bytes_mod_order(bytes: &Vec<u8>) -> (r: u64)
    ensures
        in_field(r),
        r as int == be_val(bytes@) % (FIELD_MODULUS as int),
{
    let ghost m = FIELD_MODULUS as int;
    let mut acc: u64 = 0;
    let mut i: usize = 0;
    while i < bytes.len()
        invariant
            i <= bytes@.len(),
            in_field(acc),
            acc as int == be_val(bytes@.take(i as int)) % (FIELD_MODULUS as int),
            m == FIELD_MODULUS as int,
        decreases bytes@.len() - i,
    {
        let ghost pre = bytes@.take(i as int);
        let b = bytes[i];
        let shifted: u128 = (acc as u128) * 256 + (b as u128);
        let red: u128 = shifted % (FIELD_MODULUS as u128);
        proof {
            assert(bytes@.take(i + 1).drop_last() =~= pre);
            assert(bytes@.take(i + 1).last() == b);
            // (acc * 256 + b) mod p tracks (be_val(pre) * 256 + b) mod p
            lemma_mul_mod_noop_left(be_val(pre), 256, m);
            lemma_add_mod_noop(be_val(pre) * 256, b as int, m);
            lemma_add_mod_noop(acc as int * 256, b as int, m);
            lemma_mod_twice(acc as int * 256 + b, m);
            lemma_mod_twice(be_val(pre) * 256 + b, m);
        }
        acc = red as u64;
        i = i + 1;
    }
    proof {
        assert(bytes@.take(bytes@.len() as int) =~= bytes@);
    }
    acc
}


/// A big-endian byte string of length n has value below 2^(8n).
pub proof fn lemma_be_val_bound(s: Seq<u8>)
    ensures
        0 <= be_val(s),
        be_val(s) < pow2((8 * s.len()) as nat),
    decreases s.len(),
{
    lemma2_to64();
    if s.len() == 0 {
        assert(pow2(0) == 1);
    } else {
        lemma_be_val_bound(s.drop_last());
        lemma_pow2_adds((8 * (s.len() - 1)) as nat, 8);
        assert(pow2(8) == 256);
        assert(be_val(s.drop_last()) * 256 + s.last() < pow2((8 * (s.len() - 1)) as nat) * 256)
            by (nonlinear_arith)
            requires
                be_val(s.drop_last()) < pow2((8 * (s.len() - 1)) as nat),
                s.last() < 256,
        ;
        assert(be_val(s.drop_last()) * 256 >= 0) by (nonlinear_arith)
            requires
                be_val(s.drop_last()) >= 0,
        ;
    }
}

/// Reads the exact value of an eight-byte big-endian string; unlike the
/// reducing reader, no reduction takes place, so the caller can tell a
/// canonical encoding from an out-of-range one.
pub fn u64_from_be_bytes(bytes: &Vec<u8>) -> (r: u64)
    requires
        bytes@.len() == 8,
    ensures
        r as int == be_val(bytes@),
{
    proof {
        lemma_be_val_bound(bytes@);
        lemma2_to64();
    }
    let mut acc: u64 = 0;
    let mut i: usize = 0;
    while i < 8
        invariant
            i <= 8,
            bytes@.len() == 8,
            acc as int == be_val(bytes@.take(i as int)),
            i < 8 ==> (acc as int) < pow2((8 * i) as nat),
            i < 8 ==> acc < 0x100000000000000,
        decreases 8 - i,
    {
        proof {
            lemma2_to64();
            lemma2_to64_rest();
            assert(pow2(56) == 0x100000000000000);
            assert(bytes@.take(i + 1).drop_last() =~= bytes@.take(i as int));
            assert(bytes@.take(i + 1).last() == bytes@[i as int]);
        }
        acc = acc * 256 + (bytes[i] as u64);
        proof {
            if i + 1 < 8 {
                lemma_be_val_bound(bytes@.take(i + 1));
                assert(bytes@.take(i + 1).len() == i + 1);
                if 8 * (i + 1) < 56 {
                    lemma_pow2_strictly_increases((8 * (i + 1)) as nat, 56);
                }
            }
        }
        i = i + 1;
    }
    proof {
        assert(bytes@.take(8) =~= bytes@);
    }
    acc
}


/// The canonical encoding is injective: the big-endian value of the
/// eight bytes of a word is the word itself.
pub proof fn lemma_u64_be_inverse(a: u64)
    ensures
        be_val(u64_be_spec(a)) == a as int,
        u64_be_spec(a).len() == 8,
{
    let b0: u64 = (a >> 56) & 0xff;
    let b1: u64 = (a >> 48) & 0xff;
    let b2: u64 = (a >> 40) & 0xff;
    let b3: u64 = (a >> 32) & 0xff;
    let b4: u64 = (a >> 24) & 0xff;
    let b5: u64 = (a >> 16) & 0xff;
    let b6: u64 = (a >> 8) & 0xff;
    let b7: u64 = a & 0xff;
    assert(b0 < 256 && b1 < 256 && b2 < 256 && b3 < 256 && b4 < 256 && b5 < 256 && b6 < 256 && b7
        < 256) by (bit_vector)
        requires
            b0 == (a >> 56) & 0xff,
            b1 == (a >> 48) & 0xff,
            b2 == (a >> 40) & 0xff,
            b3 == (a >> 32) & 0xff,
            b4 == (a >> 24) & 0xff,
            b5 == (a >> 16) & 0xff,
            b6 == (a >> 8) & 0xff,
            b7 == a & 0xff,
    ;
    assert(a == ((((((b0 * 256 + b1) * 256 + b2) * 256 + b3) * 256 + b4) * 256 + b5) * 256 + b6)
        * 256 + b7) by (bit_vector)
        requires
            b0 == (a >> 56) & 0xff,
            b1 == (a >> 48) & 0xff,
            b2 == (a >> 40) & 0xff,
            b3 == (a >> 32) & 0xff,
            b4 == (a >> 24) & 0xff,
            b5 == (a >> 16) & 0xff,
            b6 == (a >> 8) & 0xff,
            b7 == a & 0xff,
    ;
    lemma_be_val_unfold8(u64_be_spec(a), b0, b1, b2, b3, b4, b5, b6, b7);
}

} // verus!
