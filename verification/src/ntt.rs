use vstd::prelude::*;
use vstd::arithmetic::power2::*;
use vstd::arithmetic::power::*;
use vstd::arithmetic::div_mod::*;

use crate::arith::{
    div2_uint_mod,
    floor_log2,
    half_mod,
    log2,
    lemma_floor_log2_bounds,
    multiply_uint_mod,
};
use crate::number_theory::{
    get_minimal_primitive_root,
    has_primitive_root,
    invert_uint_mod,
    is_minimal_primitive_root_spec,
    is_mod_inverse,
    lemma_inverse_implies_invertible,
    lemma_primitive_root_order,
};

verus! {

/// The low `bits` bits of `x` in reverse order.
pub open spec fn bit_reverse(x: nat, bits: nat) -> nat
    decreases bits,
{
    if bits == 0 {
        0
    } else {
        (x % 2) * pow2((bits - 1) as nat) + bit_reverse(x / 2, (bits - 1) as nat)
    }
}

/// A bit reversal of `bits` bits stays below `2^bits`.
pub proof fn lemma_bit_reverse_bound(x: nat, bits: nat)
    ensures
        bit_reverse(x, bits) < pow2(bits),
    decreases bits,
{
    lemma2_to64();
    if bits > 0 {
        let b = (bits - 1) as nat;
        lemma_bit_reverse_bound(x / 2, b);
        lemma_pow2_unfold(bits);
        assert((x % 2) * pow2(b) <= pow2(b)) by (nonlinear_arith)
            requires
                x % 2 <= 1,
        ;
    }
}

/// Bit reversal is one-to-one on `[0, 2^bits)`.
pub proof fn lemma_bit_reverse_injective(x: nat, y: nat, bits: nat)
    requires
        x < pow2(bits),
        y < pow2(bits),
        bit_reverse(x, bits) == bit_reverse(y, bits),
    ensures
        x == y,
    decreases bits,
{
    lemma2_to64();
    if bits > 0 {
        let b = (bits - 1) as nat;
        lemma_pow2_unfold(bits);
        lemma_bit_reverse_bound(x / 2, b);
        lemma_bit_reverse_bound(y / 2, b);
        assert((x % 2) * pow2(b) == if x % 2 == 1 { pow2(b) } else { 0 }) by (nonlinear_arith)
            requires
                x % 2 == 0 || x % 2 == 1,
        ;
        assert((y % 2) * pow2(b) == if y % 2 == 1 { pow2(b) } else { 0 }) by (nonlinear_arith)
            requires
                y % 2 == 0 || y % 2 == 1,
        ;
        assert(x % 2 == y % 2);
        lemma_bit_reverse_injective(x / 2, y / 2, b);
    }
}

/// The low `bit_count` bits of `x` in reverse order.
pub fn reverse_bits(x: u64, bit_count: usize) -> (r: u64)
    requires
        bit_count <= 64,
    ensures
        r == bit_reverse(x as nat, bit_count as nat),
{
    let mut r: u64 = 0;
    let mut y: u64 = x;
    let mut k: usize = 0;
    proof {
        lemma2_to64();
    }
    while k < bit_count
        invariant
            k <= bit_count <= 64,
            r < pow2(k as nat),
            bit_reverse(x as nat, bit_count as nat) == r * pow2((bit_count - k) as nat)
                + bit_reverse(y as nat, (bit_count - k) as nat),
        decreases bit_count - k,
    {
        proof {
            let rest = (bit_count - k) as nat;
            lemma_pow2_unfold(rest);
            lemma_pow2_unfold((k + 1) as nat);
            if k + 1 < 64 {
                lemma_pow2_strictly_increases((k + 1) as nat, 64);
            }
            lemma2_to64_rest();
            assert(r * pow2(rest) == (2 * r) * pow2((rest - 1) as nat)) by (nonlinear_arith)
                requires
                    pow2(rest) == 2 * pow2((rest - 1) as nat),
            ;
            assert((2 * r + y % 2) * pow2((rest - 1) as nat) == (2 * r) * pow2((rest - 1) as nat)
                + (y % 2) * pow2((rest - 1) as nat)) by (nonlinear_arith);
        }
        r = 2 * r + y % 2;
        y = y / 2;
        k = k + 1;
    }
    proof {
        lemma2_to64();
        assert(bit_count - k == 0);
        assert(r * pow2(0) == r);
        assert(bit_reverse(y as nat, 0) == 0);
    }
    r
}

/// Reversing the bits of 0 gives 0.
proof fn lemma_bit_reverse_zero(bits: nat)
    ensures
        bit_reverse(0, bits) == 0,
    decreases bits,
{
    if bits > 0 {
        lemma_bit_reverse_zero((bits - 1) as nat);
        assert(0nat % 2 == 0 && 0nat / 2 == 0);
        assert(0 * pow2((bits - 1) as nat) == 0);
    }
}

/// `2^n` as a `usize`, for `n` below the word size.
fn pow2_usize(n: usize) -> (r: usize)
    requires
        n < usize::BITS,
    ensures
        r == pow2(n as nat),
{
    proof {
        vstd::bits::lemma_usize_pow2_no_overflow(n as nat);
        vstd::bits::lemma_usize_shl_is_mul(1, n);
    }
    1usize << n
}

/// The powers `root^i mod modulus` for `i < 2^poly_len_log2`, each stored
/// at the bit-reversed position of `i`.
pub fn powers_of_primitive_root(root: u64, modulus: u64, poly_len_log2: usize) -> (r: Vec<u64>)
    requires
        modulus > 1,
        root < modulus,
        poly_len_log2 < usize::BITS,
    ensures
        r.len() == pow2(poly_len_log2 as nat),
        forall|j: int| 0 <= j < r.len() ==> r@[j] < modulus,
        forall|i: nat|
            i < pow2(poly_len_log2 as nat) ==> r@[#[trigger] bit_reverse(i, poly_len_log2 as nat) as int]
                == pow(root as int, i) % (modulus as int),
{
    let ghost bits = poly_len_log2 as nat;
    let ghost m = modulus as int;
    let poly_len = pow2_usize(poly_len_log2);
    let mut root_powers: Vec<u64> = vec![0u64; poly_len];
    let mut power = root;
    proof {
        lemma_pow1(root as int);
        lemma_small_mod(root as nat, modulus as nat);
        lemma_pow2_pos(bits);
    }
    let mut i: usize = 1;
    while i < poly_len
        invariant
            bits == poly_len_log2 as nat,
            m == modulus as int,
            modulus > 1,
            root < modulus,
            poly_len_log2 < usize::BITS,
            poly_len == pow2(bits),
            1 <= i <= poly_len,
            root_powers.len() == poly_len,
            forall|j: int| 0 <= j < poly_len ==> root_powers@[j] < modulus,
            power == pow(root as int, i as nat) % m,
            forall|k: nat|
                1 <= k < i ==> root_powers@[#[trigger] bit_reverse(k, bits) as int] == pow(
                    root as int,
                    k,
                ) % m,
        decreases poly_len - i,
    {
        let idx = reverse_bits(i as u64, poly_len_log2);
        proof {
            lemma_bit_reverse_bound(i as nat, bits);
            assert forall|k: nat| 1 <= k < i implies #[trigger] bit_reverse(k, bits) != idx by {
                if bit_reverse(k, bits) == idx {
                    lemma_bit_reverse_injective(k, i as nat, bits);
                }
            }
        }
        let ghost prev = root_powers@;
        root_powers.set(idx as usize, power);
        proof {
            assert forall|k: nat| 1 <= k < i + 1 implies root_powers@[#[trigger] bit_reverse(
                k,
                bits,
            ) as int] == pow(root as int, k) % m by {
                lemma_bit_reverse_bound(k, bits);
                if k < i {
                    assert(prev[bit_reverse(k, bits) as int] == pow(root as int, k) % m);
                } else {
                    assert(k == i);
                }
            }
            lemma_pow_adds(root as int, i as nat, 1);
            lemma_pow1(root as int);
            lemma_mul_mod_noop_left(pow(root as int, i as nat), root as int, m);
        }
        power = multiply_uint_mod(power, root, modulus);
        i = i + 1;
    }
    proof {
        lemma_bit_reverse_zero(bits);
        assert forall|k: nat| 1 <= k < poly_len implies #[trigger] bit_reverse(k, bits) != 0 by {
            if bit_reverse(k, bits) == 0 {
                lemma_bit_reverse_injective(k, 0, bits);
            }
        }
        lemma_pow0(root as int);
        lemma_small_mod(1, modulus as nat);
    }
    let ghost prev = root_powers@;
    root_powers.set(0, 1);
    proof {
        assert forall|k: nat| k < pow2(bits) implies root_powers@[#[trigger] bit_reverse(
            k,
            bits,
        ) as int] == pow(root as int, k) % m by {
            lemma_bit_reverse_bound(k, bits);
            if k >= 1 {
                assert(prev[bit_reverse(k, bits) as int] == pow(root as int, k) % m);
            }
        }
    }
    root_powers
}

/// 2^32.
pub open spec fn two_pow_32() -> int {
    0x1_0000_0000int
}

/// Shoup's scaled form of `x` for a modulus below 2^32:
/// `floor(x * 2^32 / m)` with the shift done in 64 bits and the quotient
/// kept to 32 bits.
pub open spec fn scale_narrow(x: int, m: int) -> int {
    (((x * two_pow_32()) % crate::arith::two_pow_64()) / m) % two_pow_32()
}

/// Shoup's scaled form of `x` for a 64-bit modulus: `floor(x * 2^64 / m)`
/// kept to 64 bits.
pub open spec fn scale_wide(x: int, m: int) -> int {
    ((x * crate::arith::two_pow_64()) / m) % crate::arith::two_pow_64()
}

/// The scaled form that a table for the given modulus width holds.
pub open spec fn scale_power(x: int, m: int, narrow: bool) -> int {
    if narrow {
        scale_narrow(x, m)
    } else {
        scale_wide(x, m)
    }
}

/// The scaled forms of the first `poly_len` values, for a modulus below 2^32.
pub fn scale_powers_u32(modulus: u32, poly_len: usize, inp: &[u64]) -> (r: Vec<u64>)
    requires
        modulus > 0,
        inp.len() >= poly_len,
    ensures
        r.len() == poly_len,
        forall|j: int| 0 <= j < poly_len ==> r@[j] == scale_narrow(inp@[j] as int, modulus as int),
{
    let mut scaled_powers: Vec<u64> = Vec::new();
    let mut i: usize = 0;
    while i < poly_len
        invariant
            modulus > 0,
            inp.len() >= poly_len,
            i <= poly_len,
            scaled_powers.len() == i,
            forall|j: int|
                0 <= j < i ==> scaled_powers@[j] == scale_narrow(inp@[j] as int, modulus as int),
        decreases poly_len - i,
    {
        let x = inp[i];
        let wide_val = x << 32u64;
        assert(wide_val == (x * 0x1_0000_0000) % 0x1_0000_0000_0000_0000) by (bit_vector)
            requires
                wide_val == x << 32u64,
        ;
        let quotient = wide_val / (modulus as u64);
        let low = (quotient as u32) as u64;
        assert(low == quotient % 0x1_0000_0000) by (bit_vector)
            requires
                low == (quotient as u32) as u64,
        ;
        scaled_powers.push(low);
        i = i + 1;
    }
    scaled_powers
}

/// The scaled forms of the first `poly_len` values, for a 64-bit modulus.
pub fn scale_powers_u64(modulus: u64, poly_len: usize, inp: &[u64]) -> (r: Vec<u64>)
    requires
        modulus > 0,
        inp.len() >= poly_len,
    ensures
        r.len() == poly_len,
        forall|j: int| 0 <= j < poly_len ==> r@[j] == scale_wide(inp@[j] as int, modulus as int),
{
    let mut scaled_powers: Vec<u64> = Vec::new();
    let mut i: usize = 0;
    while i < poly_len
        invariant
            modulus > 0,
            inp.len() >= poly_len,
            i <= poly_len,
            scaled_powers.len() == i,
            forall|j: int|
                0 <= j < i ==> scaled_powers@[j] == scale_wide(inp@[j] as int, modulus as int),
        decreases poly_len - i,
    {
        let x = inp[i];
        let wide_val = (x as u128) << 64u128;
        assert(wide_val == (x as u128) * 0x1_0000_0000_0000_0000) by (bit_vector)
            requires
                wide_val == (x as u128) << 64u128,
        ;
        let quotient = wide_val / (modulus as u128);
        let low = quotient as u64;
        assert(low == quotient % 0x1_0000_0000_0000_0000) by (bit_vector)
            requires
                low == quotient as u64,
        ;
        scaled_powers.push(low);
        i = i + 1;
    }
    scaled_powers
}

/// The four tables of one modulus, built from `root` and its inverse:
/// the bit-reversed powers of `root`, their scaled forms, the bit-reversed
/// powers of `inv_root` halved, and their scaled forms.
pub open spec fn is_ntt_table_with(
    t: Vec<Vec<u64>>,
    m: int,
    log: nat,
    narrow: bool,
    root: int,
    inv_root: int,
) -> bool {
    let n = pow2(log);
    &&& 0 <= root < m
    &&& is_minimal_primitive_root_spec(root, 2 * n, m)
    &&& is_mod_inverse(inv_root, root, m)
    &&& t@.len() == 4
    &&& forall|k: int| 0 <= k < 4 ==> (#[trigger] t@[k])@.len() == n
    &&& forall|i: nat|
        i < n ==> t@[0]@[#[trigger] bit_reverse(i, log) as int] == pow(root, i) % m
    &&& forall|i: nat|
        i < n ==> t@[2]@[#[trigger] bit_reverse(i, log) as int] == half_mod(
            pow(inv_root, i) % m,
            m,
        )
    &&& forall|j: int| 0 <= j < n ==> #[trigger] t@[1]@[j] == scale_power(t@[0]@[j] as int, m, narrow)
    &&& forall|j: int| 0 <= j < n ==> #[trigger] t@[3]@[j] == scale_power(t@[2]@[j] as int, m, narrow)
}

/// `t` holds the NTT tables of modulus `m` for polynomials of `2^log`
/// coefficients, built from the minimal primitive `2^(log+1)`-th root of unity.
pub open spec fn is_ntt_table(t: Vec<Vec<u64>>, m: int, log: nat, narrow: bool) -> bool {
    exists|root: int, inv_root: int| is_ntt_table_with(t, m, log, narrow, root, inv_root)
}

/// What building the tables of a modulus asks of it.
pub open spec fn ntt_modulus_ok(m: int, poly_len: nat, narrow: bool) -> bool {
    &&& 1 < m <= u64::MAX
    &&& narrow ==> m <= u32::MAX
    &&& has_primitive_root(2 * poly_len, m)
}

/// The tables of one modulus.
fn build_ntt_table(poly_len: usize, poly_len_log2: usize, modulus: u64, narrow: bool) -> (r: Vec<
    Vec<u64>,
>)
    requires
        poly_len_log2 < usize::BITS,
        poly_len == pow2(poly_len_log2 as nat),
        2 * poly_len <= u64::MAX,
        ntt_modulus_ok(modulus as int, poly_len as nat, narrow),
    ensures
        is_ntt_table(r, modulus as int, poly_len_log2 as nat, narrow),
{
    let ghost m = modulus as int;
    let ghost n = poly_len as nat;
    let ghost log = poly_len_log2 as nat;
    proof {
        lemma_pow2_pos(log);
    }
    let degree = 2 * poly_len as u64;
    let root = get_minimal_primitive_root(degree, modulus).unwrap();
    proof {
        lemma_primitive_root_order(root as int, degree as nat, m);
        lemma_pow_adds(root as int, 1, (degree - 1) as nat);
        lemma_pow1(root as int);
        lemma_mul_mod_noop_right(root as int, pow(root as int, (degree - 1) as nat), m);
        lemma_inverse_implies_invertible(
            root as nat,
            (pow(root as int, (degree - 1) as nat) % m) as nat,
            modulus as nat,
        );
    }
    let inv_root = invert_uint_mod(root, modulus).unwrap();
    let root_powers = powers_of_primitive_root(root, modulus, poly_len_log2);
    let scaled_root_powers = if narrow {
        scale_powers_u32(modulus as u32, poly_len, root_powers.as_slice())
    } else {
        scale_powers_u64(modulus, poly_len, root_powers.as_slice())
    };
    let mut inv_root_powers = powers_of_primitive_root(inv_root, modulus, poly_len_log2);
    proof {
        lemma_mod_mod(m - 1, 2, n as int);
        assert(modulus % 2 == 1);
    }
    let ghost raw = inv_root_powers@;
    let mut i: usize = 0;
    while i < poly_len
        invariant
            modulus % 2 == 1,
            modulus > 1,
            raw.len() == poly_len,
            forall|j: int| 0 <= j < poly_len ==> raw[j] < modulus,
            inv_root_powers@.len() == poly_len,
            i <= poly_len,
            forall|j: int|
                0 <= j < i ==> inv_root_powers@[j] == half_mod(raw[j] as int, modulus as int),
            forall|j: int| i <= j < poly_len ==> inv_root_powers@[j] == raw[j],
        decreases poly_len - i,
    {
        assert(inv_root_powers@[i as int] == raw[i as int]);
        let halved = div2_uint_mod(inv_root_powers[i], modulus);
        inv_root_powers.set(i, halved);
        i = i + 1;
    }
    let scaled_inv_root_powers = if narrow {
        scale_powers_u32(modulus as u32, poly_len, inv_root_powers.as_slice())
    } else {
        scale_powers_u64(modulus, poly_len, inv_root_powers.as_slice())
    };
    let table = vec![root_powers, scaled_root_powers, inv_root_powers, scaled_inv_root_powers];
    proof {
        assert forall|i: nat| i < n implies table@[2]@[#[trigger] bit_reverse(i, log) as int]
            == half_mod(pow(inv_root as int, i) % m, m) by {
            lemma_bit_reverse_bound(i, log);
        }
        assert(is_ntt_table_with(table, m, log, narrow, root as int, inv_root as int));
    }
    table
}

/// The NTT tables of each modulus below 2^32 for polynomials of
/// `poly_len` coefficients.
pub fn build_ntt_tables(poly_len: usize, moduli: &[u64]) -> (r: Vec<Vec<Vec<u64>>>)
    requires
        poly_len > 0,
        poly_len == pow2(floor_log2(poly_len as nat)),
        2 * poly_len <= u64::MAX,
        forall|i: int| 0 <= i < moduli.len() ==> ntt_modulus_ok(moduli[i] as int, poly_len as nat, true),
    ensures
        r.len() == moduli.len(),
        forall|i: int|
            0 <= i < moduli.len() ==> is_ntt_table(
                #[trigger] r@[i],
                moduli[i] as int,
                floor_log2(poly_len as nat),
                true,
            ),
{
    build_tables(poly_len, moduli, true)
}

/// The NTT tables of each 64-bit modulus for polynomials of `poly_len`
/// coefficients.
pub fn build_ntt_tables_alt(poly_len: usize, moduli: &[u64]) -> (r: Vec<Vec<Vec<u64>>>)
    requires
        poly_len > 0,
        poly_len == pow2(floor_log2(poly_len as nat)),
        2 * poly_len <= u64::MAX,
        forall|i: int| 0 <= i < moduli.len() ==> ntt_modulus_ok(moduli[i] as int, poly_len as nat, false),
    ensures
        r.len() == moduli.len(),
        forall|i: int|
            0 <= i < moduli.len() ==> is_ntt_table(
                #[trigger] r@[i],
                moduli[i] as int,
                floor_log2(poly_len as nat),
                false,
            ),
{
    build_tables(poly_len, moduli, false)
}

fn build_tables(poly_len: usize, moduli: &[u64], narrow: bool) -> (r: Vec<Vec<Vec<u64>>>)
    requires
        poly_len > 0,
        poly_len == pow2(floor_log2(poly_len as nat)),
        2 * poly_len <= u64::MAX,
        forall|i: int| 0 <= i < moduli.len() ==> ntt_modulus_ok(moduli[i] as int, poly_len as nat, narrow),
    ensures
        r.len() == moduli.len(),
        forall|i: int|
            0 <= i < moduli.len() ==> is_ntt_table(
                #[trigger] r@[i],
                moduli[i] as int,
                floor_log2(poly_len as nat),
                narrow,
            ),
{
    let lg = log2(poly_len as u64);
    proof {
        lemma_floor_log2_bounds(poly_len as nat);
        lemma2_to64();
        lemma2_to64_rest();
        if lg >= usize::BITS {
            if lg > usize::BITS {
                lemma_pow2_strictly_increases(usize::BITS as nat, lg as nat);
            }
            assert(usize::BITS == 32 || usize::BITS == 64);
        }
    }
    let poly_len_log2 = lg as usize;
    let mut output: Vec<Vec<Vec<u64>>> = Vec::new();
    let mut coeff_mod: usize = 0;
    while coeff_mod < moduli.len()
        invariant
            poly_len_log2 < usize::BITS,
            poly_len_log2 == floor_log2(poly_len as nat),
            poly_len == pow2(poly_len_log2 as nat),
            2 * poly_len <= u64::MAX,
            forall|i: int| 0 <= i < moduli.len() ==> ntt_modulus_ok(moduli[i] as int, poly_len as nat, narrow),
            coeff_mod <= moduli.len(),
            output.len() == coeff_mod,
            forall|i: int|
                0 <= i < coeff_mod ==> is_ntt_table(
                    #[trigger] output@[i],
                    moduli[i] as int,
                    poly_len_log2 as nat,
                    narrow,
                ),
        decreases moduli.len() - coeff_mod,
    {
        let table = build_ntt_table(poly_len, poly_len_log2, moduli[coeff_mod], narrow);
        output.push(table);
        coeff_mod = coeff_mod + 1;
    }
    output
}

} // verus!
