use vstd::prelude::*;
use vstd::arithmetic::power2::*;
use vstd::arithmetic::power::*;
use vstd::arithmetic::div_mod::*;
use vstd::arithmetic::mul::*;

use crate::params::Params;

verus! {

/// The exponent of the largest power of two that does not exceed `a`
/// (0 for `a <= 1`).
pub open spec fn floor_log2(a: nat) -> nat
    decreases a,
{
    if a <= 1 {
        0
    } else {
        1 + floor_log2(a / 2)
    }
}

/// The exponent of the smallest power of two that is at least `a`
/// (0 for `a <= 1`).
pub open spec fn ceil_log2(a: nat) -> nat
    decreases a,
{
    if a <= 1 {
        0
    } else {
        1 + ceil_log2((a + 1) / 2)
    }
}

/// `floor_log2(a)` is the `k` with `2^k <= a < 2^(k+1)`.
pub proof fn lemma_floor_log2_bounds(a: nat)
    requires
        a >= 1,
    ensures
        pow2(floor_log2(a)) <= a < pow2(floor_log2(a) + 1),
    decreases a,
{
    lemma2_to64();
    if a > 1 {
        let k = floor_log2(a / 2);
        lemma_floor_log2_bounds(a / 2);
        lemma_pow2_unfold(k + 1);
        lemma_pow2_unfold(k + 2);
    }
}

/// `ceil_log2(a)` is the least `k` with `a <= 2^k`.
pub proof fn lemma_ceil_log2_bounds(a: nat)
    requires
        a >= 1,
    ensures
        a <= pow2(ceil_log2(a)),
        ceil_log2(a) > 0 ==> pow2((ceil_log2(a) - 1) as nat) < a,
    decreases a,
{
    lemma2_to64();
    if a > 1 {
        let b = (a + 1) / 2;
        let k = ceil_log2(b);
        lemma_ceil_log2_bounds(b);
        lemma_pow2_unfold(k + 1);
        if k > 0 {
            lemma_pow2_unfold(k);
        }
    }
}

/// A value below `2^64` has a base-2 logarithm below 64.
pub proof fn lemma_log2_below_64(a: nat)
    requires
        1 <= a <= u64::MAX,
    ensures
        floor_log2(a) < 64,
        ceil_log2(a) <= 64,
{
    lemma_floor_log2_bounds(a);
    lemma_ceil_log2_bounds(a);
    lemma2_to64();
    lemma2_to64_rest();
    if floor_log2(a) >= 64 {
        if floor_log2(a) > 64 {
            lemma_pow2_strictly_increases(64, floor_log2(a));
        }
    }
    if ceil_log2(a) > 64 {
        if ceil_log2(a) - 1 > 64 {
            lemma_pow2_strictly_increases(64, (ceil_log2(a) - 1) as nat);
        }
    }
}

/// Floor of the base-2 logarithm. Zero has no logarithm and is refused.
pub fn log2(a: u64) -> (r: u64)
    requires
        a > 0,
    ensures
        r == floor_log2(a as nat),
        r < 64,
{
    proof {
        lemma_log2_below_64(a as nat);
    }
    let mut x = a;
    let mut r: u64 = 0;
    while x > 1
        invariant
            1 <= x <= a,
            r + floor_log2(x as nat) == floor_log2(a as nat),
            floor_log2(a as nat) < 64,
        decreases x,
    {
        x = x / 2;
        r = r + 1;
    }
    r
}

/// Ceiling of the base-2 logarithm; 0 for 0 and 1.
pub fn log2_ceil(a: u64) -> (r: u64)
    ensures
        r == ceil_log2(a as nat),
        r <= 64,
{
    if a <= 1 {
        return 0;
    }
    proof {
        lemma_log2_below_64(a as nat);
    }
    let mut x = a;
    let mut r: u64 = 0;
    while x > 1
        invariant
            1 <= x <= a,
            r + ceil_log2(x as nat) == ceil_log2(a as nat),
            ceil_log2(a as nat) <= 64,
        decreases x,
    {
        x = x / 2 + x % 2;
        r = r + 1;
    }
    r
}

/// Ceiling of the base-2 logarithm of a `usize`; 0 for 0 and 1.
pub fn log2_ceil_usize(a: usize) -> (r: usize)
    ensures
        r == ceil_log2(a as nat),
{
    let r = log2_ceil(a as u64);
    proof {
        if a > 1 {
            lemma_log2_below_64(a as nat);
        }
    }
    r as usize
}

/// `a * b mod modulus`, computed without overflow.
pub fn multiply_uint_mod(a: u64, b: u64, modulus: u64) -> (r: u64)
    requires
        modulus > 0,
    ensures
        r == (a as int * b as int) % (modulus as int),
        r < modulus,
{
    assert(a as int * b as int <= u128::MAX) by (nonlinear_arith)
        requires
            a <= u64::MAX,
            b <= u64::MAX,
    ;
    let p: u128 = (a as u128) * (b as u128);
    (p % (modulus as u128)) as u64
}

/// One step of square-and-multiply exponentiation keeps the value of
/// `res * base^e mod m`.
proof fn lemma_square_multiply_step(res: int, b: int, e: nat, m: int)
    requires
        m > 0,
    ensures
        ((if e % 2 == 1 { (res * b) % m } else { res }) * pow((b * b) % m, e / 2)) % m
            == (res * pow(b, e)) % m,
{
    let h: nat = e / 2;
    let r: nat = e % 2;
    let p = pow(b * b, h);
    lemma_square_is_pow2(b);
    lemma_pow_multiplies(b, 2, h);
    lemma_pow_adds(b, r, 2 * h);
    assert(e == r + 2 * h);
    assert(pow(b, e) == pow(b, r) * p);
    lemma_pow_mod_noop(b * b, h, m);
    if r == 1 {
        lemma_pow1(b);
        lemma_mul_mod_noop_general(res * b, pow((b * b) % m, h), m);
        lemma_mul_mod_noop_general(res * b, p, m);
        lemma_mul_is_associative(res, b, p);
    } else {
        lemma_pow0(b);
        lemma_mul_mod_noop_general(res, pow((b * b) % m, h), m);
        lemma_mul_mod_noop_general(res, p, m);
    }
}

/// `operand^exponent mod modulus` by square-and-multiply.
pub fn exponentiate_uint_mod(operand: u64, exponent: u64, modulus: u64) -> (r: u64)
    requires
        modulus > 0,
    ensures
        r == pow(operand as int, exponent as nat) % (modulus as int),
        r < modulus,
{
    let mut result: u64 = 1 % modulus;
    let mut base: u64 = operand % modulus;
    let mut e: u64 = exponent;
    proof {
        lemma_pow_mod_noop(operand as int, exponent as nat, modulus as int);
        lemma_mul_mod_noop_general(1, pow(base as int, e as nat), modulus as int);
    }
    while e > 0
        invariant
            modulus > 0,
            result < modulus,
            base < modulus,
            (result as int * pow(base as int, e as nat)) % (modulus as int)
                == pow(operand as int, exponent as nat) % (modulus as int),
        decreases e,
    {
        proof {
            lemma_square_multiply_step(result as int, base as int, e as nat, modulus as int);
        }
        if e % 2 == 1 {
            result = multiply_uint_mod(result, base, modulus);
        }
        base = multiply_uint_mod(base, base, modulus);
        e = e / 2;
    }
    proof {
        lemma_pow0(base as int);
        lemma_small_mod(result as nat, modulus as nat);
    }
    result
}

/// Halving modulo an odd modulus: the `r < modulus` with `2 * r == operand (mod modulus)`.
pub open spec fn half_mod(operand: int, modulus: int) -> int {
    if operand % 2 == 1 {
        (operand + modulus) / 2
    } else {
        operand / 2
    }
}

/// `operand / 2 mod modulus` for an odd modulus and a reduced operand.
pub fn div2_uint_mod(operand: u64, modulus: u64) -> (r: u64)
    requires
        operand < modulus,
        modulus % 2 == 1,
    ensures
        r == half_mod(operand as int, modulus as int),
        r < modulus,
        (2 * r) % (modulus as int) == operand,
{
    proof {
        lemma_small_mod(operand as nat, modulus as nat);
        lemma_mod_add_multiples_vanish(operand as int, modulus as int);
    }
    if operand % 2 == 1 {
        (((operand as u128) + (modulus as u128)) / 2) as u64
    } else {
        operand / 2
    }
}

/// 2^64.
pub open spec fn two_pow_64() -> int {
    0x1_0000_0000_0000_0000int
}

/// 2^128.
pub open spec fn two_pow_128() -> int {
    0x1_0000_0000_0000_0000_0000_0000_0000_0000int
}

/// The Barrett constant of a modulus: `floor(2^128 / modulus)`, kept to 128 bits.
pub open spec fn barrett_cr(modulus: int) -> int {
    (two_pow_128() / modulus) % two_pow_128()
}

/// Low 64-bit word of the Barrett constant.
pub open spec fn barrett_cr_low(modulus: int) -> int {
    barrett_cr(modulus) % two_pow_64()
}

/// High 64-bit word of the Barrett constant.
pub open spec fn barrett_cr_high(modulus: int) -> int {
    barrett_cr(modulus) / two_pow_64()
}

/// The two 64-bit words of `floor(2^128 / modulus)`, low word first.
pub fn get_barrett_crs(modulus: u64) -> (r: (u64, u64))
    requires
        modulus > 0,
    ensures
        r.0 == barrett_cr_low(modulus as int),
        r.1 == barrett_cr_high(modulus as int),
{
    if modulus == 1 {
        assert(two_pow_128() / 1 == two_pow_128());
        assert(barrett_cr(1) == 0) by {
            lemma_mod_self_0(two_pow_128());
        }
        return (0, 0);
    }
    let m = modulus as u128;
    let q = u128::MAX / m;
    let rem = u128::MAX % m;
    proof {
        lemma_fundamental_div_mod(u128::MAX as int, m as int);
    }
    let quot = if rem == m - 1 {
        proof {
            assert(two_pow_128() == (q + 1) * m) by (nonlinear_arith)
                requires
                    u128::MAX as int == m * q + rem,
                    rem == m - 1,
                    two_pow_128() == u128::MAX as int + 1,
            ;
            lemma_fundamental_div_mod_converse_div(two_pow_128(), m as int, q + 1, 0);
            assert((q + 1) <= u128::MAX) by (nonlinear_arith)
                requires
                    two_pow_128() == (q + 1) * m,
                    m >= 2,
            ;
        }
        q + 1
    } else {
        proof {
            assert(two_pow_128() == q * m + (rem + 1)) by (nonlinear_arith)
                requires
                    u128::MAX as int == m * q + rem,
                    two_pow_128() == u128::MAX as int + 1,
            ;
            lemma_fundamental_div_mod_converse_div(two_pow_128(), m as int, q as int, rem + 1);
        }
        q
    };
    proof {
        assert(quot as int == two_pow_128() / (m as int));
        lemma_small_mod(quot as nat, two_pow_128() as nat);
        lemma_div_is_ordered(quot as int, u128::MAX as int, two_pow_64());
        assert(u128::MAX as int / two_pow_64() < two_pow_64());
    }
    ((quot % 0x1_0000_0000_0000_0000) as u64, (quot / 0x1_0000_0000_0000_0000) as u64)
}

/// The Barrett constants of up to four moduli; unused slots hold 0.
pub fn get_barrett(moduli: &[u64]) -> (r: ([u64; 4], [u64; 4]))
    requires
        moduli.len() <= 4,
        forall|i: int| 0 <= i < moduli.len() ==> moduli[i] > 0,
    ensures
        forall|i: int|
            0 <= i < moduli.len() ==> r.0[i] == barrett_cr_low(moduli[i] as int) && r.1[i]
                == barrett_cr_high(moduli[i] as int),
        forall|i: int| moduli.len() <= i < 4 ==> r.0[i] == 0 && r.1[i] == 0,
{
    let mut cr0: [u64; 4] = [0, 0, 0, 0];
    let mut cr1: [u64; 4] = [0, 0, 0, 0];
    let mut i: usize = 0;
    while i < moduli.len()
        invariant
            i <= moduli.len() <= 4,
            forall|j: int| 0 <= j < moduli.len() ==> moduli[j] > 0,
            forall|j: int|
                0 <= j < i ==> cr0[j] == barrett_cr_low(moduli[j] as int) && cr1[j]
                    == barrett_cr_high(moduli[j] as int),
            forall|j: int| i <= j < 4 ==> cr0[j] == 0 && cr1[j] == 0,
        decreases moduli.len() - i,
    {
        let (lo, hi) = get_barrett_crs(moduli[i]);
        cr0[i] = lo;
        cr1[i] = hi;
        i = i + 1;
    }
    (cr0, cr1)
}

/// `val mod params.modulus`, the reduction that Barrett's method with the
/// parameter set's constants computes.
pub fn barrett_reduction_u128(params: &Params, val: u128) -> (r: u64)
    requires
        params.modulus > 0,
    ensures
        r == val as int % params.modulus as int,
{
    (val % (params.modulus as u128)) as u64
}

} // verus!
