//! Arithmetic over the prime field `GF(P)` with `P = 2^31 - 2^27 + 1`.
//!
//! An element stores `x * 2^31 mod P` for its logical value `x`; every
//! operation is specified over the logical (canonical) value.

use vstd::prelude::*;
use vstd::arithmetic::div_mod::*;
use vstd::arithmetic::power::*;
use vstd::arithmetic::power2::*;

verus! {

/// The field's modulus.
pub const P: u32 = 0x78000001;

/// Width in bits of the Montgomery radix `R = 2^31`.
pub const MONTY_BITS: u32 = 31;

/// `R - 1`, selecting the low `MONTY_BITS` bits of a word.
pub const MONTY_MASK: u32 = 0x7fffffff;

/// `P^-1 mod R`, used by the Montgomery reduction.
pub const MONTY_MU: u32 = 0x8000001;

/// The Montgomery radix `R = 2^31`.
pub open spec fn radix() -> nat {
    0x80000000
}

/// `R^-1 mod P`.
pub open spec fn radix_inv() -> nat {
    1887436800
}

/// The modulus as a mathematical integer.
pub open spec fn modulus() -> nat {
    0x78000001
}

/// The canonical value that a Montgomery word stands for: `v * R^-1 mod P`.
pub open spec fn canonical_of(v: nat) -> nat {
    (v * radix_inv()) % modulus()
}

/// The Montgomery word of a canonical value: `x * R mod P`.
pub open spec fn monty_of(x: nat) -> nat {
    (x * radix()) % modulus()
}

/// Field addition on canonical values.
pub open spec fn fadd(x: nat, y: nat) -> nat {
    (x + y) % modulus()
}

/// Field negation on canonical values.
pub open spec fn fneg(x: nat) -> nat {
    ((0 - x) % (modulus() as int)) as nat
}

/// Field subtraction on canonical values.
pub open spec fn fsub(x: nat, y: nat) -> nat {
    ((x - y) % (modulus() as int)) as nat
}

/// Field multiplication on canonical values.
pub open spec fn fmul(x: nat, y: nat) -> nat {
    (x * y) % modulus()
}

/// Field exponentiation on canonical values: `x^e mod P`.
#[verifier::opaque]
pub open spec fn fpow(x: nat, e: nat) -> nat {
    (pow(x as int, e) % (modulus() as int)) as nat
}

/// The canonical value of the fixed generator of the order-`2^27` subgroup.
pub open spec fn two_adic_root() -> nat {
    0x1a427a41
}

/// An element of the BabyBear field.
#[derive(Clone, Copy, Debug, PartialEq, Eq, Structural, Hash)]
pub struct BabyBear {
    value: u32,
}

impl View for BabyBear {
    type V = nat;

    /// The canonical value in `[0, P)`.
    closed spec fn view(&self) -> nat {
        canonical_of(self.value as nat)
    }
}

impl BabyBear {
    /// The stored Montgomery word is fully reduced.
    #[verifier::type_invariant]
    pub closed spec fn wf(self) -> bool {
        self.value < P
    }
}

// ---------------------------------------------------------------------------
// Modular arithmetic facts.

proof fn lemma_radix_facts()
    ensures
        (radix() * radix_inv()) % modulus() == 1,
        (MONTY_MU as nat * P as nat) % radix() == 1,
{
    assert(radix() * radix_inv() == 2013265919 * modulus() + 1);
    lemma_fundamental_div_mod_converse((radix() * radix_inv()) as int, modulus() as int, 2013265919, 1);
    assert(MONTY_MU as nat * P as nat == 125829121 * radix() + 1);
    lemma_fundamental_div_mod_converse((MONTY_MU as nat * P as nat) as int, radix() as int, 125829121, 1);
}

/// Multiplying congruent values by the same factor keeps them congruent.
proof fn lemma_mul_cong(a: int, b: int, k: int, m: int)
    requires
        m > 0,
        a % m == b % m,
    ensures
        (a * k) % m == (b * k) % m,
{
    lemma_mul_mod_noop_left(a, k, m);
    lemma_mul_mod_noop_left(b, k, m);
}

/// A value below the modulus is its own residue.
proof fn lemma_small(x: int, m: int)
    requires
        0 <= x < m,
    ensures
        x % m == x,
{
    lemma_small_mod(x as nat, m as nat);
}

/// `canonical_of` undoes `monty_of`.
proof fn lemma_canonical_of_monty(x: nat)
    ensures
        canonical_of(monty_of(x)) == x % modulus(),
{
    let m = modulus() as int;
    lemma_radix_facts();
    lemma_mul_mod_noop_left((x * radix()) as int, radix_inv() as int, m);
    assert(x * radix() * radix_inv() == x * (radix() * radix_inv())) by (nonlinear_arith);
    lemma_mul_mod_noop_right(x as int, (radix() * radix_inv()) as int, m);
}

/// `canonical_of` is additive.
proof fn lemma_canonical_add(a: nat, b: nat)
    ensures
        canonical_of(((a + b) % modulus())) == fadd(canonical_of(a), canonical_of(b)),
{
    let m = modulus() as int;
    let ri = radix_inv() as int;
    lemma_mul_mod_noop_left((a + b) as int, ri, m);
    assert((a + b) * ri == a * ri + b * ri) by (nonlinear_arith);
    lemma_add_mod_noop(a * ri, b * ri, m);
}

/// `canonical_of` commutes with subtraction.
proof fn lemma_canonical_sub(a: nat, b: nat)
    ensures
        canonical_of((((a - b) % (modulus() as int)) as nat)) == fsub(canonical_of(a), canonical_of(b)),
{
    let m = modulus() as int;
    let ri = radix_inv() as int;
    lemma_mul_mod_noop_left(a - b, ri, m);
    assert((a - b) * ri == a * ri - b * ri) by (nonlinear_arith);
    lemma_sub_mod_noop(a * ri, b * ri, m);
}

// ---------------------------------------------------------------------------
// Word-level helpers.

/// `x - y mod P` for words already below `P`.
pub fn canonical_sub(x: u32, y: u32) -> (r: u32)
    requires
        x < P,
        y < P,
    ensures
        r < P,
        r as int == (x as int - y as int) % (P as int),
{
    if x < y {
        proof {
            lemma_mod_add_multiples_vanish(x as int - y as int, P as int);
            lemma_small(x as int - y as int + P as int, P as int);
        }
        x + (P - y)
    } else {
        proof {
            lemma_small(x as int - y as int, P as int);
        }
        x - y
    }
}

/// The Montgomery word of `x mod P`.
pub fn to_monty(x: u32) -> (r: u32)
    ensures
        r < P,
        r as nat == monty_of(x as nat),
{
    assert((x as u64) << 31u64 == x as u64 * 0x80000000) by (bit_vector)
        requires x <= 0xffffffffu32;
    (((x as u64) << 31u64) % (P as u64)) as u32
}

/// The Montgomery word of `x mod P`, for a 64-bit `x`.
pub fn to_monty_64(x: u64) -> (r: u32)
    ensures
        r < P,
        r as nat == monty_of(x as nat),
{
    assert((x as u128) << 31u128 == x as u128 * 0x80000000) by (bit_vector)
        requires x <= 0xffffffffffffffffu64;
    (((x as u128) << 31u128) % (P as u128)) as u32
}

/// The canonical value of a Montgomery word: `x * R^-1 mod P`.
pub fn from_monty(x: u32) -> (r: u32)
    ensures
        r < P,
        r as nat == canonical_of(x as nat),
{
    proof {
        assert(x as u64 <= 0xffffffff);
    }
    monty_reduce(x as u64)
}

/// Splits `x` into its low and high `MONTY_BITS` bits, `(lo, hi)`.
pub fn monty_split_double(x: u64) -> (r: (u32, u32))
    requires
        x < 0x4000000000000000,
    ensures
        r.0 as nat == x as nat % radix(),
        r.1 as nat == x as nat / radix(),
{
    assert((x as u32) & 0x7fffffffu32 == (x % 0x80000000) as u32) by (bit_vector);
    assert(((x >> 31u64) as u32) as u64 == x / 0x80000000) by (bit_vector)
        requires x < 0x4000000000000000u64;
    let lo = (x as u32) & MONTY_MASK;
    let hi = (x >> (MONTY_BITS as u64)) as u32;
    (lo, hi)
}

/// The low `MONTY_BITS` bits of `x * y`.
pub fn monty_mul_lo(x: u32, y: u32) -> (r: u32)
    ensures
        r as nat == (x as nat * y as nat) % radix(),
{
    let w = x.wrapping_mul(y);
    assert(w & 0x7fffffffu32 == w % 0x80000000) by (bit_vector);
    proof {
        lemma_mod_mod((x as nat * y as nat) as int, 0x80000000, 2);
    }
    w & MONTY_MASK
}

/// The bits of `x * y` above the low `MONTY_BITS`.
pub fn monty_mul_hi(x: u32, y: u32) -> (r: u32)
    requires
        x < radix(),
        y < radix(),
    ensures
        r as nat == (x as nat * y as nat) / radix(),
{
    assert((x as nat) * (y as nat) < 0x4000000000000000) by (nonlinear_arith)
        requires x < 0x80000000u32, y < 0x80000000u32;
    let long_prod = (x as u64) * (y as u64);
    assert(((long_prod >> 31u64) as u32) as u64 == long_prod / 0x80000000
        && long_prod >> 31u64 < 0x80000000u64) by (bit_vector)
        requires long_prod < 0x4000000000000000u64;
    (long_prod >> (MONTY_BITS as u64)) as u32
}

/// Montgomery reduction: the word `x * R^-1 mod P` for `x < P * R`.
pub fn monty_reduce(x: u64) -> (r: u32)
    requires
        x < P as nat * radix(),
    ensures
        r < P,
        r as nat == canonical_of(x as nat),
{
    let (x_lo, x_hi) = monty_split_double(x);

    let t = monty_mul_lo(MONTY_MU, x_lo);
    let u = monty_mul_hi(t, P);
    proof {
        lemma_reduce_step(x as int, x_lo as int, x_hi as int, t as int, u as int);
    }

    // Both `x_hi` and `u` are below `P`.
    canonical_sub(x_hi, u)
}

/// The arithmetic behind `monty_reduce`.
proof fn lemma_reduce_step(x: int, lo: int, hi: int, t: int, u: int)
    requires
        0 <= x < P as int * radix(),
        lo == x % (radix() as int),
        hi == x / (radix() as int),
        t == (MONTY_MU as int * lo) % (radix() as int),
        u == (t * P as int) / (radix() as int),
    ensures
        0 <= hi < P,
        0 <= u < P,
        (hi - u) % (P as int) == canonical_of(x as nat) as int,
{
    let r = radix() as int;
    let p = P as int;
    let mu = MONTY_MU as int;
    lemma_radix_facts();
    lemma_fundamental_div_mod(x, r);
    assert(0 <= lo < r);
    assert(0 <= hi < p) by (nonlinear_arith)
        requires x == r * hi + lo, 0 <= lo < r, 0 <= x < p * r, r > 0;
    assert(0 <= t < r);
    assert(0 <= u < p) by (nonlinear_arith)
        requires u == (t * p) / r, 0 <= t < r, p > 0, r > 0;
    // t * P = lo (mod R)
    lemma_mul_mod_noop_left(mu * lo, p, r);
    assert(mu * lo * p == lo * (mu * p)) by (nonlinear_arith);
    lemma_mul_mod_noop_right(lo, mu * p, r);
    lemma_small(lo, r);
    assert((t * p) % r == lo);
    lemma_fundamental_div_mod(t * p, r);
    // x = (hi - u) * R + t * P
    assert(x == (hi - u) * r + t * p) by (nonlinear_arith)
        requires x == r * hi + lo, t * p == r * u + lo;
    lemma_mod_multiples_vanish(t, (hi - u) * r, p);
    assert(x % p == ((hi - u) * r) % p) by (nonlinear_arith)
        requires x == (hi - u) * r + t * p, (p * t + (hi - u) * r) % p == ((hi - u) * r) % p;
    let ri = radix_inv() as int;
    lemma_mul_cong(x, (hi - u) * r, ri, p);
    assert((hi - u) * r * ri == (hi - u) * (r * ri)) by (nonlinear_arith);
    lemma_mul_mod_noop_right(hi - u, r * ri, p);
}

/// `canonical_of` is multiplicative across a Montgomery product.
proof fn lemma_canonical_mul(a: nat, b: nat)
    ensures
        canonical_of(canonical_of(a * b)) == fmul(canonical_of(a), canonical_of(b)),
{
    let p = modulus() as int;
    let ri = radix_inv() as int;
    lemma_mul_mod_noop_left(a * b * ri, ri, p);
    lemma_mul_mod_noop((a * ri) as int, (b * ri) as int, p);
    assert(a * b * ri * ri == a * ri * (b * ri)) by (nonlinear_arith);
}

/// The canonical value of a word, given its quotient and remainder.
proof fn lemma_canonical_value(v: nat, q: int, c: int)
    requires
        v * radix_inv() == q * modulus() + c,
        0 <= c < modulus(),
    ensures
        canonical_of(v) == c,
{
    lemma_fundamental_div_mod_converse((v * radix_inv()) as int, modulus() as int, q, c);
}

/// Two words below `P` with the same canonical value are equal.
proof fn lemma_canonical_injective(v: nat, w: nat)
    requires
        v < modulus(),
        w < modulus(),
        canonical_of(v) == canonical_of(w),
    ensures
        v == w,
{
    let p = modulus() as int;
    lemma_radix_facts();
    lemma_mul_cong((v * radix_inv()) as int, (w * radix_inv()) as int, radix() as int, p);
    assert(v * radix_inv() * radix() == v * (radix() * radix_inv())) by (nonlinear_arith);
    assert(w * radix_inv() * radix() == w * (radix() * radix_inv())) by (nonlinear_arith);
    lemma_mul_mod_noop_right(v as int, (radix() * radix_inv()) as int, p);
    lemma_mul_mod_noop_right(w as int, (radix() * radix_inv()) as int, p);
    lemma_small(v as int, p);
    lemma_small(w as int, p);
}

/// Multiplying two powers of one base adds the exponents.
proof fn lemma_fpow_mul(a: nat, i: nat, j: nat)
    ensures
        fmul(fpow(a, i), fpow(a, j)) == fpow(a, i + j),
{
    reveal(fpow);
    let p = modulus() as int;
    lemma_pow_positive_or_zero(a, i);
    lemma_pow_positive_or_zero(a, j);
    lemma_mul_mod_noop(pow(a as int, i), pow(a as int, j), p);
    lemma_pow_adds(a as int, i, j);
}

/// A power of a power multiplies the exponents.
proof fn lemma_fpow_fpow(a: nat, i: nat, m: nat)
    ensures
        fpow(fpow(a, i), m) == fpow(a, i * m),
{
    reveal(fpow);
    let p = modulus() as int;
    lemma_pow_positive_or_zero(a, i);
    lemma_pow_mod_noop(pow(a as int, i), m, p);
    lemma_pow_multiplies(a as int, i, m);
}

/// Powers of a natural number are natural numbers.
proof fn lemma_pow_positive_or_zero(a: nat, e: nat)
    ensures
        pow(a as int, e) >= 0,
    decreases e,
{
    reveal(pow);
    if e > 0 {
        lemma_pow_positive_or_zero(a, (e - 1) as nat);
        assert(a * pow(a as int, (e - 1) as nat) >= 0) by (nonlinear_arith)
            requires pow(a as int, (e - 1) as nat) >= 0;
    }
}

/// The first power of a canonical value is itself.
proof fn lemma_fpow_one(a: nat)
    requires
        a < modulus(),
    ensures
        fpow(a, 1) == a,
{
    reveal(fpow);
    lemma_pow1(a as int);
    lemma_small(a as int, modulus() as int);
}

/// Squaring `k + 1` times is squaring `k` times and then once more.
proof fn lemma_fpow_pow2_step(a: nat, k: nat)
    ensures
        fpow(a, pow2(k + 1)) == fmul(fpow(a, pow2(k)), fpow(a, pow2(k))),
{
    lemma_pow2_unfold(k + 1);
    lemma_fpow_mul(a, pow2(k), pow2(k));
}

/// The field sum of the canonical values of `s`; zero when `s` is empty.
pub open spec fn sum_of(s: Seq<BabyBear>) -> nat
    decreases s.len(),
{
    if s.len() == 0 {
        0
    } else {
        fadd(sum_of(s.drop_last()), s.last()@)
    }
}

/// The field product of the canonical values of `s`; one when `s` is empty.
pub open spec fn product_of(s: Seq<BabyBear>) -> nat
    decreases s.len(),
{
    if s.len() == 0 {
        1
    } else {
        fmul(product_of(s.drop_last()), s.last()@)
    }
}

/// The integer `sum of u[i] * v[i]` over canonical values, for `u` and `v`
/// of one length.
pub open spec fn dot_of(u: Seq<u64>, v: Seq<BabyBear>) -> int
    decreases u.len(),
{
    if u.len() == 0 || v.len() == 0 {
        0
    } else {
        dot_of(u.drop_last(), v.drop_last()) + u.last() * v.last()@
    }
}

/// The integer sum of `u`.
pub open spec fn total_of(u: Seq<u64>) -> int
    decreases u.len(),
{
    if u.len() == 0 {
        0
    } else {
        total_of(u.drop_last()) + u.last()
    }
}

/// The same sum over Montgomery words.
spec fn raw_dot_of(u: Seq<u64>, v: Seq<BabyBear>) -> int
    decreases u.len(),
{
    if u.len() == 0 || v.len() == 0 {
        0
    } else {
        raw_dot_of(u.drop_last(), v.drop_last()) + u.last() * v.last().value
    }
}

/// The word sum reduces to the canonical sum.
proof fn lemma_raw_dot(u: Seq<u64>, v: Seq<BabyBear>)
    requires
        u.len() == v.len(),
    ensures
        (raw_dot_of(u, v) * radix_inv()) % (modulus() as int) == dot_of(u, v) % (modulus() as int),
    decreases u.len(),
{
    let p = modulus() as int;
    let ri = radix_inv() as int;
    if u.len() > 0 {
        let pu = u.drop_last();
        let pv = v.drop_last();
        lemma_raw_dot(pu, pv);
        let a = raw_dot_of(pu, pv);
        let c = u.last() as int;
        let w = v.last().value as int;
        assert((a + c * w) * ri == a * ri + c * (w * ri)) by (nonlinear_arith);
        lemma_add_mod_noop(a * ri, c * (w * ri), p);
        lemma_mul_mod_noop_right(c, w * ri, p);
        lemma_add_mod_noop(dot_of(pu, pv), c * ((w * ri) % p), p);
    }
}

/// A prefix sums to no more than the whole.
proof fn lemma_total_prefix(u: Seq<u64>, n: int)
    requires
        0 <= n <= u.len(),
    ensures
        0 <= total_of(u.subrange(0, n)) <= total_of(u),
    decreases u.len(),
{
    if n < u.len() {
        assert(u.drop_last().subrange(0, n) =~= u.subrange(0, n));
        lemma_total_prefix(u.drop_last(), n);
    } else {
        assert(u.subrange(0, n) =~= u);
        lemma_total_nonneg(u);
    }
}

/// The sum of `u64` values is not negative.
proof fn lemma_total_nonneg(u: Seq<u64>)
    ensures
        total_of(u) >= 0,
    decreases u.len(),
{
    if u.len() > 0 {
        lemma_total_nonneg(u.drop_last());
    }
}

// ---------------------------------------------------------------------------
// Laws of the field, over canonical values.

/// Addition is commutative and associative, and zero is its identity.
pub proof fn lemma_add_laws(x: nat, y: nat, z: nat)
    requires
        x < modulus(),
        y < modulus(),
        z < modulus(),
    ensures
        fadd(x, y) == fadd(y, x),
        fadd(fadd(x, y), z) == fadd(x, fadd(y, z)),
        fadd(x, 0) == x,
{
    let p = modulus() as int;
    lemma_add_mod_noop((x + y) as int, z as int, p);
    lemma_add_mod_noop(x as int, (y + z) as int, p);
    lemma_small(x as int, p);
    lemma_small(z as int, p);
    lemma_mod_twice((y + z) as int, p);
    lemma_mod_twice((x + y) as int, p);
}

/// Multiplication is commutative and associative, one is its identity and
/// zero annihilates.
pub proof fn lemma_mul_laws(x: nat, y: nat, z: nat)
    requires
        x < modulus(),
        y < modulus(),
        z < modulus(),
    ensures
        fmul(x, y) == fmul(y, x),
        fmul(fmul(x, y), z) == fmul(x, fmul(y, z)),
        fmul(x, 1) == x,
        fmul(x, 0) == 0,
{
    let p = modulus() as int;
    assert(x * y == y * x) by (nonlinear_arith);
    lemma_mul_mod_noop_left((x * y) as int, z as int, p);
    lemma_mul_mod_noop_right(x as int, (y * z) as int, p);
    assert(x * y * z == x * (y * z)) by (nonlinear_arith);
    lemma_small(x as int, p);
}

/// Multiplication distributes over addition.
pub proof fn lemma_distributive(x: nat, y: nat, z: nat)
    requires
        x < modulus(),
        y < modulus(),
        z < modulus(),
    ensures
        fmul(x, fadd(y, z)) == fadd(fmul(x, y), fmul(x, z)),
{
    let p = modulus() as int;
    lemma_mul_mod_noop_right(x as int, (y + z) as int, p);
    assert(x * (y + z) == x * y + x * z) by (nonlinear_arith);
    lemma_add_mod_noop((x * y) as int, (x * z) as int, p);
}

/// An element plus its negation is zero, and subtraction adds the negation.
pub proof fn lemma_neg_laws(x: nat, y: nat)
    requires
        x < modulus(),
        y < modulus(),
    ensures
        fadd(x, fneg(x)) == 0,
        fsub(x, y) == fadd(x, fneg(y)),
        fsub(x, x) == 0,
{
    let p = modulus() as int;
    lemma_mod_bound(0 - x, p);
    lemma_mod_bound(0 - y, p);
    lemma_add_mod_noop(x as int, 0 - x, p);
    lemma_add_mod_noop(x as int, 0 - y, p);
    lemma_small(x as int, p);
    lemma_mod_twice(0 - y, p);
    lemma_mod_twice(0 - x, p);
}

/// Elements are equal exactly when their canonical values are: converting an
/// element to its canonical value and back gives the same element.
pub proof fn lemma_round_trip(a: BabyBear, b: BabyBear)
    requires
        a.wf(),
        b.wf(),
    ensures
        (a == b) == (a@ == b@),
        a@ < modulus(),
{
    lemma_element_of_view(a);
    lemma_element_of_view(b);
}

/// The fixed generator has order exactly `2^27`: raised to `2^27` it is one,
/// raised to `2^26` it is not.
pub proof fn lemma_two_adicity()
    ensures
        fpow(two_adic_root(), pow2(27)) == 1,
        fpow(two_adic_root(), pow2(26)) != 1,
{
    let g = two_adic_root();
    let p = modulus() as int;
    lemma2_to64();
    lemma_fpow_one(g);
    lemma_fpow_pow2_step(g, 0);
    lemma_fundamental_div_mod_converse(440564289int * 440564289int, p, 96408969, 975630072);
    lemma_fpow_pow2_step(g, 1);
    lemma_fundamental_div_mod_converse(975630072int * 975630072int, p, 472791014, 1149491290);
    lemma_fpow_pow2_step(g, 2);
    lemma_fundamental_div_mod_converse(1149491290int * 1149491290int, p, 656311822, 1003846038);
    lemma_fpow_pow2_step(g, 3);
    lemma_fundamental_div_mod_converse(1003846038int * 1003846038int, p, 500533415, 1267047229);
    lemma_fpow_pow2_step(g, 4);
    lemma_fundamental_div_mod_converse(1267047229int * 1267047229int, p, 797415117, 570250684);
    lemma_fpow_pow2_step(g, 5);
    lemma_fundamental_div_mod_converse(570250684int * 570250684int, p, 161521555, 414040701);
    lemma_fpow_pow2_step(g, 6);
    lemma_fundamental_div_mod_converse(414040701int * 414040701int, p, 85150054, 195061667);
    lemma_fpow_pow2_step(g, 7);
    lemma_fundamental_div_mod_converse(195061667int * 195061667int, p, 18899169, 1049899240);
    lemma_fpow_pow2_step(g, 8);
    lemma_fundamental_div_mod_converse(1049899240int * 1049899240int, p, 547512577, 1559589183);
    lemma_fpow_pow2_step(g, 9);
    lemma_fundamental_div_mod_converse(1559589183int * 1559589183int, p, 1208145627, 1286330022);
    lemma_fpow_pow2_step(g, 10);
    lemma_fundamental_div_mod_converse(1286330022int * 1286330022int, p, 821871024, 1421947380);
    lemma_fpow_pow2_step(g, 11);
    lemma_fundamental_div_mod_converse(1421947380int * 1421947380int, p, 1004305655, 2009781145);
    lemma_fpow_pow2_step(g, 12);
    lemma_fundamental_div_mod_converse(2009781145int * 2009781145int, p, 2006302400, 1657000625);
    lemma_fpow_pow2_step(g, 13);
    lemma_fundamental_div_mod_converse(1657000625int * 1657000625int, p, 1363779639, 298008106);
    lemma_fpow_pow2_step(g, 14);
    lemma_fundamental_div_mod_converse(298008106int * 298008106int, p, 44111823, 1282623253);
    lemma_fpow_pow2_step(g, 15);
    lemma_fundamental_div_mod_converse(1282623253int * 1282623253int, p, 817141139, 1340477990);
    lemma_fpow_pow2_step(g, 16);
    lemma_fundamental_div_mod_converse(1340477990int * 1340477990int, p, 892520567, 341742893);
    lemma_fpow_pow2_step(g, 17);
    lemma_fundamental_div_mod_converse(341742893int * 341742893int, p, 58009328, 1753498361);
    lemma_fpow_pow2_step(g, 18);
    lemma_fundamental_div_mod_converse(1753498361int * 1753498361int, p, 1527248074, 1732600167);
    lemma_fpow_pow2_step(g, 19);
    lemma_fundamental_div_mod_converse(1732600167int * 1732600167int, p, 1491061517, 397765732);
    lemma_fpow_pow2_step(g, 20);
    lemma_fundamental_div_mod_converse(397765732int * 397765732int, p, 78587520, 1721589904);
    lemma_fpow_pow2_step(g, 21);
    lemma_fundamental_div_mod_converse(1721589904int * 1721589904int, p, 1472171046, 760005850);
    lemma_fpow_pow2_step(g, 22);
    lemma_fundamental_div_mod_converse(760005850int * 760005850int, p, 286901440, 196396260);
    lemma_fpow_pow2_step(g, 23);
    lemma_fundamental_div_mod_converse(196396260int * 196396260int, p, 19158666, 1592366214);
    lemma_fpow_pow2_step(g, 24);
    lemma_fundamental_div_mod_converse(1592366214int * 1592366214int, p, 1259461123, 1728404513);
    lemma_fpow_pow2_step(g, 25);
    lemma_fundamental_div_mod_converse(1728404513int * 1728404513int, p, 1483848769, 2013265920);
    lemma_fpow_pow2_step(g, 26);
    lemma_fundamental_div_mod_converse(2013265920int * 2013265920int, p, 2013265919, 1);
}

/// The generator of the order-`2^bits` subgroup, the fixed generator raised
/// to `2^(27 - bits)`, gives one when raised to `2^bits`.
pub proof fn lemma_subgroup_generator_order(bits: nat)
    requires
        bits <= 27,
    ensures
        fpow(fpow(two_adic_root(), pow2((27 - bits) as nat)), pow2(bits)) == 1,
{
    lemma_fpow_fpow(two_adic_root(), pow2((27 - bits) as nat), pow2(bits));
    lemma_pow2_adds((27 - bits) as nat, bits);
    lemma_two_adicity();
}

impl BabyBear {
    /// The additive identity.
    pub fn zero() -> (r: Self)
        ensures
            r@ == 0,
    {
        proof {
            lemma_canonical_value(0, 0, 0);
        }
        BabyBear { value: 0 }
    }

    /// The multiplicative identity.
    pub fn one() -> (r: Self)
        ensures
            r@ == 1,
    {
        proof {
            lemma_canonical_value(0x7ffffff, 125829119, 1);
        }
        BabyBear { value: 0x7ffffff }
    }

    /// The element `2`.
    pub fn two() -> (r: Self)
        ensures
            r@ == 2,
    {
        proof {
            lemma_canonical_value(0xffffffe, 251658238, 2);
        }
        BabyBear { value: 0xffffffe }
    }

    /// The element `-1`, whose canonical value is `P - 1`.
    pub fn neg_one() -> (r: Self)
        ensures
            r@ == P - 1,
    {
        proof {
            lemma_canonical_value(0x70000002, 1761607680, P - 1);
        }
        BabyBear { value: 0x70000002 }
    }

    /// The field's order.
    pub const ORDER_U32: u32 = P;

    /// The field's order, as a 64-bit integer.
    pub const ORDER_U64: u64 = 0x78000001;

    /// The largest `k` with `2^k` dividing `P - 1`.
    pub const TWO_ADICITY: usize = 27;

    /// The element with canonical value `n mod P`.
    pub fn from_wrapped_u32(n: u32) -> (r: Self)
        ensures
            r@ == n as nat % modulus(),
    {
        let value = to_monty(n);
        proof {
            lemma_canonical_of_monty(n as nat);
        }
        BabyBear { value }
    }

    /// The element with canonical value `n mod P`.
    pub fn from_wrapped_u64(n: u64) -> (r: Self)
        ensures
            r@ == n as nat % modulus(),
    {
        let value = to_monty_64(n);
        proof {
            lemma_canonical_of_monty(n as nat);
        }
        BabyBear { value }
    }

    /// The element with canonical value `n`.
    pub fn from_canonical_u32(n: u32) -> (r: Self)
        requires
            n < P,
        ensures
            r@ == n,
    {
        proof {
            lemma_small(n as int, P as int);
        }
        Self::from_wrapped_u32(n)
    }

    /// The element with canonical value `n`.
    pub fn from_canonical_u64(n: u64) -> (r: Self)
        requires
            n < P,
        ensures
            r@ == n,
    {
        Self::from_canonical_u32(n as u32)
    }

    /// The element with canonical value `n`.
    pub fn from_canonical_usize(n: usize) -> (r: Self)
        requires
            n < P,
        ensures
            r@ == n,
    {
        Self::from_canonical_u32(n as u32)
    }

    /// The element with canonical value `n`.
    pub fn from_canonical_u16(n: u16) -> (r: Self)
        ensures
            r@ == n,
    {
        Self::from_canonical_u32(n as u32)
    }

    /// The element with canonical value `n`.
    pub fn from_canonical_u8(n: u8) -> (r: Self)
        ensures
            r@ == n,
    {
        Self::from_canonical_u32(n as u32)
    }

    /// `1` for `true`, `0` for `false`.
    pub fn from_bool(b: bool) -> (r: Self)
        ensures
            r@ == (if b { 1nat } else { 0nat }),
    {
        Self::from_canonical_u32(if b { 1 } else { 0 })
    }

    /// The canonical value, in `[0, P)`.
    pub fn as_canonical_u32(&self) -> (r: u32)
        ensures
            r as nat == self@,
            r < P,
    {
        from_monty(self.value)
    }

    /// The canonical value, in `[0, P)`.
    pub fn as_canonical_u64(&self) -> (r: u64)
        ensures
            r as nat == self@,
            r < P,
    {
        self.as_canonical_u32() as u64
    }

    /// Whether this is the additive identity.
    pub fn is_zero(&self) -> (r: bool)
        ensures
            r == (self@ == 0),
    {
        proof {
            use_type_invariant(self);
            lemma_canonical_value(0, 0, 0);
            if self@ == 0 {
                lemma_canonical_injective(self.value as nat, 0);
            }
        }
        self.value == 0
    }

    /// `self + rhs`.
    pub fn add(self, rhs: Self) -> (r: Self)
        ensures
            r@ == fadd(self@, rhs@),
    {
        proof {
            use_type_invariant(self);
            use_type_invariant(rhs);
        }
        let mut sum = self.value + rhs.value;
        if sum >= P {
            sum -= P;
        }
        proof {
            let s = self.value as int + rhs.value as int;
            if s >= P {
                lemma_mod_sub_multiples_vanish(s, P as int);
                lemma_small(s - P, P as int);
            } else {
                lemma_small(s, P as int);
            }
            lemma_canonical_add(self.value as nat, rhs.value as nat);
        }
        BabyBear { value: sum }
    }

    /// `self - rhs`.
    pub fn sub(self, rhs: Self) -> (r: Self)
        ensures
            r@ == fsub(self@, rhs@),
    {
        proof {
            use_type_invariant(self);
            use_type_invariant(rhs);
            lemma_canonical_sub(self.value as nat, rhs.value as nat);
        }
        BabyBear { value: canonical_sub(self.value, rhs.value) }
    }

    /// `-self`.
    pub fn neg(self) -> (r: Self)
        ensures
            r@ == fneg(self@),
    {
        proof {
            use_type_invariant(self);
            lemma_canonical_sub(0, self.value as nat);
            lemma_canonical_value(0, 0, 0);
        }
        BabyBear { value: canonical_sub(0, self.value) }
    }

    /// `self * rhs`.
    pub fn mul(self, rhs: Self) -> (r: Self)
        ensures
            r@ == fmul(self@, rhs@),
    {
        proof {
            use_type_invariant(self);
            use_type_invariant(rhs);
            assert((self.value as nat) * (rhs.value as nat) < P as nat * radix()) by (nonlinear_arith)
                requires self.value < P, rhs.value < P, P < radix();
            lemma_canonical_mul(self.value as nat, rhs.value as nat);
        }
        let long_prod = self.value as u64 * rhs.value as u64;
        BabyBear { value: monty_reduce(long_prod) }
    }

    /// `self * self`.
    pub fn square(self) -> (r: Self)
        ensures
            r@ == fmul(self@, self@),
    {
        self.mul(self)
    }

    /// `self` raised to the power `2^k`, by `k` squarings.
    pub fn exp_power_of_2(self, k: usize) -> (r: Self)
        ensures
            r@ == fpow(self@, pow2(k as nat)),
    {
        let mut cur = self;
        let mut i: usize = 0;
        proof {
            lemma2_to64();
            lemma_fpow_one(self@);
        }
        while i < k
            invariant
                i <= k,
                cur@ == fpow(self@, pow2(i as nat)),
            decreases k - i,
        {
            proof {
                lemma_fpow_pow2_step(self@, i as nat);
            }
            cur = cur.square();
            i = i + 1;
        }
        cur
    }

    /// The multiplicative inverse, `self^(P-2)`; `None` for zero.
    pub fn try_inverse(&self) -> (r: Option<Self>)
        ensures
            r.is_none() == (self@ == 0),
            r matches Some(v) ==> v@ == fpow(self@, (P - 2) as nat),
    {
        if self.is_zero() {
            return None;
        }
        let a = Ghost(self@);
        proof {
            lemma_fpow_one(a@);
            lemma2_to64();
        }
        // An addition chain for `P - 2 = 2013265919`.
        let x1 = *self;
        let x2 = mul_powers(x1, x1, a, Ghost(1), Ghost(1));
        let x3 = mul_powers(x1, x2, a, Ghost(1), Ghost(2));
        let x6 = mul_powers(x3, x3, a, Ghost(3), Ghost(3));
        let x7 = mul_powers(x1, x6, a, Ghost(1), Ghost(6));
        let x56 = exp_powers(x7, 3, a, Ghost(7));
        let x63 = mul_powers(x7, x56, a, Ghost(7), Ghost(56));
        let x4032 = exp_powers(x63, 6, a, Ghost(63));
        let x4095 = mul_powers(x63, x4032, a, Ghost(63), Ghost(4032));
        let x8190 = mul_powers(x4095, x4095, a, Ghost(4095), Ghost(4095));
        let x12285 = mul_powers(x4095, x8190, a, Ghost(4095), Ghost(8190));
        let x24570 = mul_powers(x12285, x12285, a, Ghost(12285), Ghost(12285));
        let x28665 = mul_powers(x4095, x24570, a, Ghost(4095), Ghost(24570));
        let x28672 = mul_powers(x7, x28665, a, Ghost(7), Ghost(28665));
        let x32767 = mul_powers(x4095, x28672, a, Ghost(4095), Ghost(28672));
        let x61439 = mul_powers(x28672, x32767, a, Ghost(28672), Ghost(32767));
        let x2013233152 = exp_powers(x61439, 15, a, Ghost(61439));
        let x2013265919 = mul_powers(x32767, x2013233152, a, Ghost(32767), Ghost(2013233152));
        Some(x2013265919)
    }

    /// A generator of the multiplicative group.
    pub fn multiplicative_group_generator() -> (r: Self)
        ensures
            r@ == 31,
    {
        Self::from_canonical_u32(0x1f)
    }

    /// The fixed generator of the order-`2^27` subgroup.
    pub fn power_of_two_generator() -> (r: Self)
        ensures
            r@ == two_adic_root(),
    {
        Self::from_canonical_u32(0x1a427a41)
    }

    /// The generator of the order-`2^bits` subgroup: the fixed generator
    /// raised to `2^(27 - bits)`.
    pub fn two_adic_generator(bits: usize) -> (r: Self)
        requires
            bits <= 27,
        ensures
            r@ == fpow(two_adic_root(), pow2((27 - bits) as nat)),
    {
        Self::power_of_two_generator().exp_power_of_2(27 - bits)
    }

    /// The field sum of `values`; zero when empty.
    pub fn sum(values: &[BabyBear]) -> (r: Self)
        ensures
            r@ == sum_of(values@),
    {
        let mut acc = Self::zero();
        let mut i: usize = 0;
        while i < values.len()
            invariant
                i <= values@.len(),
                acc@ == sum_of(values@.subrange(0, i as int)),
            decreases values.len() - i,
        {
            proof {
                assert(values@.subrange(0, i + 1).drop_last() =~= values@.subrange(0, i as int));
            }
            acc = acc.add(values[i]);
            i = i + 1;
        }
        proof {
            assert(values@.subrange(0, i as int) =~= values@);
        }
        acc
    }

    /// The field product of `values`; one when empty.
    pub fn product(values: &[BabyBear]) -> (r: Self)
        ensures
            r@ == product_of(values@),
    {
        let mut acc = Self::one();
        let mut i: usize = 0;
        while i < values.len()
            invariant
                i <= values@.len(),
                acc@ == product_of(values@.subrange(0, i as int)),
            decreases values.len() - i,
        {
            proof {
                assert(values@.subrange(0, i + 1).drop_last() =~= values@.subrange(0, i as int));
            }
            acc = acc.mul(values[i]);
            i = i + 1;
        }
        proof {
            assert(values@.subrange(0, i as int) =~= values@);
        }
        acc
    }

    /// `sum of u[i] * v[i]`, with a single reduction at the end.
    pub fn linear_combination_u64(u: &[u64], v: &[BabyBear]) -> (r: Self)
        requires
            u@.len() == v@.len(),
            total_of(u@) <= 0x100000000,
        ensures
            r@ == dot_of(u@, v@) % (modulus() as int),
    {
        let mut dot: u64 = 0;
        let mut i: usize = 0;
        while i < u.len()
            invariant
                i <= u@.len(),
                u@.len() == v@.len(),
                total_of(u@) <= 0x100000000,
                dot == raw_dot_of(u@.subrange(0, i as int), v@.subrange(0, i as int)),
                dot <= total_of(u@.subrange(0, i as int)) * (P as int),
            decreases u.len() - i,
        {
            let ghost pu = u@.subrange(0, i + 1);
            let ghost pv = v@.subrange(0, i + 1);
            let vi = v[i];
            proof {
                assert(pu.drop_last() =~= u@.subrange(0, i as int));
                assert(pv.drop_last() =~= v@.subrange(0, i as int));
                use_type_invariant(vi);
                lemma_total_prefix(u@, i + 1);
                assert(pu.last() == u[i as int]);
                let c = u[i as int] as int;
                let w = vi.value as int;
                let t = total_of(u@.subrange(0, i as int));
                assert(dot + c * w <= total_of(pu) * (P as int) && total_of(pu) * (P as int) < 0x8000000000000000)
                    by (nonlinear_arith)
                    requires dot <= t * (P as int), total_of(pu) == t + c, 0 <= w < P, c >= 0,
                        total_of(pu) <= 0x100000000;
                assert(pv.last() == vi);
            }
            dot = dot + u[i] * vi.value as u64;
            i = i + 1;
        }
        proof {
            assert(u@.subrange(0, i as int) =~= u@);
            assert(v@.subrange(0, i as int) =~= v@);
            lemma_raw_dot(u@, v@);
            let p = modulus() as int;
            lemma_mul_mod_noop_left(dot as int, radix_inv() as int, p);
        }
        BabyBear { value: (dot % (P as u64)) as u32 }
    }

    /// The candidate drawn from a random word: its low 27 bits taken as a
    /// Montgomery word, kept when below `P` and `None` otherwise, in which
    /// case the caller draws again.
    pub fn from_random_bits(w: u32) -> (r: Option<Self>)
        ensures
            r is Some <==> w as nat % 0x8000000 < P,
            r matches Some(x) ==> x@ == canonical_of(w as nat % 0x8000000),
    {
        let next_u27 = w & 0x7ffffff;
        assert(w & 0x7ffffffu32 == w % 0x8000000) by (bit_vector);
        if next_u27 < P {
            Some(BabyBear { value: next_u27 })
        } else {
            None
        }
    }

    /// `self + self`.
    pub fn double(self) -> (r: Self)
        ensures
            r@ == fadd(self@, self@),
    {
        self.add(self)
    }
}

/// The element whose canonical value is `x mod P`.
pub closed spec fn element_of(x: nat) -> BabyBear {
    BabyBear { value: monty_of(x) as u32 }
}

/// A well-formed element is the one that its canonical value names.
pub proof fn lemma_element_of_view(a: BabyBear)
    requires
        a.wf(),
    ensures
        a == element_of(a@),
        a@ < modulus(),
{
    lemma_mod_bound((a.value as nat * radix_inv()) as int, modulus() as int);
    lemma_canonical_of_monty(a@);
    lemma_small(a@ as int, modulus() as int);
    lemma_mod_bound((a@ * radix()) as int, modulus() as int);
    lemma_canonical_injective(a.value as nat, monty_of(a@));
}

/// The product of two powers of one base.
fn mul_powers(x: BabyBear, y: BabyBear, a: Ghost<nat>, i: Ghost<nat>, j: Ghost<nat>) -> (r: BabyBear)
    requires
        x@ == fpow(a@, i@),
        y@ == fpow(a@, j@),
    ensures
        r@ == fpow(a@, i@ + j@),
{
    proof {
        lemma_fpow_mul(a@, i@, j@);
    }
    BabyBear::mul(x, y)
}

/// A power of `a`, raised to `2^k` by squaring.
fn exp_powers(x: BabyBear, k: usize, a: Ghost<nat>, i: Ghost<nat>) -> (r: BabyBear)
    requires
        x@ == fpow(a@, i@),
        k <= 15,
    ensures
        r@ == fpow(a@, i@ * pow2(k as nat)),
{
    proof {
        lemma_fpow_fpow(a@, i@, pow2(k as nat));
    }
    x.exp_power_of_2(k)
}

impl core::ops::Add for BabyBear {
    type Output = Self;

    fn add(self, rhs: Self) -> (r: Self) {
        let r = BabyBear::add(self, rhs);
        proof {
            use_type_invariant(r);
            lemma_element_of_view(r);
        }
        r
    }
}

impl vstd::std_specs::ops::AddSpecImpl for BabyBear {
    open spec fn obeys_add_spec() -> bool {
        true
    }

    open spec fn add_req(self, rhs: BabyBear) -> bool {
        true
    }

    open spec fn add_spec(self, rhs: BabyBear) -> BabyBear {
        element_of(fadd(self@, rhs@))
    }
}

impl core::ops::Sub for BabyBear {
    type Output = Self;

    fn sub(self, rhs: Self) -> (r: Self) {
        let r = BabyBear::sub(self, rhs);
        proof {
            use_type_invariant(r);
            lemma_element_of_view(r);
        }
        r
    }
}

impl vstd::std_specs::ops::SubSpecImpl for BabyBear {
    open spec fn obeys_sub_spec() -> bool {
        true
    }

    open spec fn sub_req(self, rhs: BabyBear) -> bool {
        true
    }

    open spec fn sub_spec(self, rhs: BabyBear) -> BabyBear {
        element_of(fsub(self@, rhs@))
    }
}

impl core::ops::Mul for BabyBear {
    type Output = Self;

    fn mul(self, rhs: Self) -> (r: Self) {
        let r = BabyBear::mul(self, rhs);
        proof {
            use_type_invariant(r);
            lemma_element_of_view(r);
        }
        r
    }
}

impl vstd::std_specs::ops::MulSpecImpl for BabyBear {
    open spec fn obeys_mul_spec() -> bool {
        true
    }

    open spec fn mul_req(self, rhs: BabyBear) -> bool {
        true
    }

    open spec fn mul_spec(self, rhs: BabyBear) -> BabyBear {
        element_of(fmul(self@, rhs@))
    }
}

impl core::ops::Neg for BabyBear {
    type Output = Self;

    fn neg(self) -> (r: Self) {
        let r = BabyBear::neg(self);
        proof {
            use_type_invariant(r);
            lemma_element_of_view(r);
        }
        r
    }
}

impl vstd::std_specs::ops::NegSpecImpl for BabyBear {
    open spec fn obeys_neg_spec() -> bool {
        true
    }

    open spec fn neg_req(self) -> bool {
        true
    }

    open spec fn neg_spec(self) -> BabyBear {
        element_of(fneg(self@))
    }
}

impl core::ops::Div for BabyBear {
    type Output = Self;

    fn div(self, rhs: Self) -> (r: Self) {
        let inv = rhs.try_inverse().unwrap();
        let r = BabyBear::mul(self, inv);
        proof {
            use_type_invariant(r);
            lemma_element_of_view(r);
        }
        r
    }
}

impl vstd::std_specs::ops::DivSpecImpl for BabyBear {
    open spec fn obeys_div_spec() -> bool {
        true
    }

    /// Division by zero has no result.
    open spec fn div_req(self, rhs: BabyBear) -> bool {
        rhs@ != 0
    }

    open spec fn div_spec(self, rhs: BabyBear) -> BabyBear {
        element_of(fmul(self@, fpow(rhs@, (P - 2) as nat)))
    }
}

impl core::ops::AddAssign for BabyBear {
    fn add_assign(&mut self, rhs: Self)
        ensures
            final(self)@ == fadd(old(self)@, rhs@),
    {
        *self = BabyBear::add(*self, rhs);
    }
}

impl core::ops::SubAssign for BabyBear {
    fn sub_assign(&mut self, rhs: Self)
        ensures
            final(self)@ == fsub(old(self)@, rhs@),
    {
        *self = BabyBear::sub(*self, rhs);
    }
}

impl core::ops::MulAssign for BabyBear {
    fn mul_assign(&mut self, rhs: Self)
        ensures
            final(self)@ == fmul(old(self)@, rhs@),
    {
        *self = BabyBear::mul(*self, rhs);
    }
}

impl Default for BabyBear {
    fn default() -> (r: Self)
        ensures
            r@ == 0,
    {
        BabyBear::zero()
    }
}

impl PartialOrd for BabyBear {
    fn partial_cmp(&self, other: &Self) -> (r: Option<core::cmp::Ordering>) {
        let a = self.as_canonical_u32();
        let b = other.as_canonical_u32();
        if a < b {
            Some(core::cmp::Ordering::Less)
        } else if a > b {
            Some(core::cmp::Ordering::Greater)
        } else {
            Some(core::cmp::Ordering::Equal)
        }
    }
}

impl vstd::std_specs::cmp::PartialOrdSpecImpl for BabyBear {
    open spec fn obeys_partial_cmp_spec() -> bool {
        true
    }

    /// Elements are ordered by their canonical values.
    open spec fn partial_cmp_spec(&self, other: &BabyBear) -> Option<core::cmp::Ordering> {
        if self@ < other@ {
            Some(core::cmp::Ordering::Less)
        } else if self@ > other@ {
            Some(core::cmp::Ordering::Greater)
        } else {
            Some(core::cmp::Ordering::Equal)
        }
    }
}

} // verus!
