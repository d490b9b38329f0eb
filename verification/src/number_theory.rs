use vstd::prelude::*;
use vstd::arithmetic::div_mod::*;
use vstd::arithmetic::mul::*;
use vstd::arithmetic::power::*;

use crate::arith::{exponentiate_uint_mod, multiply_uint_mod};

verus! {

/// Greatest common divisor, by Euclid's algorithm.
pub open spec fn gcd(a: nat, b: nat) -> nat
    decreases b,
{
    if b == 0 {
        a
    } else {
        gcd(b, a % b)
    }
}

/// `x` is the inverse of `a` modulo `m`, in reduced form.
pub open spec fn is_mod_inverse(x: int, a: int, m: int) -> bool {
    0 <= x < m && (a * x) % m == 1int % m
}

/// The inverse of `a` modulo `m`, where one exists.
pub open spec fn mod_inverse(a: int, m: int) -> int {
    choose|x: int| is_mod_inverse(x, a, m)
}

/// `a` has an inverse modulo `m` in the sense of `invert_uint_mod`.
pub open spec fn invertible(a: nat, m: nat) -> bool {
    a != 0 && gcd(m, a % m) == 1
}

/// A reduced inverse modulo `m` is unique.
pub proof fn lemma_mod_inverse_unique(a: int, m: int, x: int, y: int)
    requires
        m > 0,
        is_mod_inverse(x, a, m),
        is_mod_inverse(y, a, m),
    ensures
        x == y,
{
    lemma_mul_mod_noop_right(x, 1, m);
    lemma_mul_mod_noop_right(x, a * y, m);
    lemma_mul_is_associative(x, a, y);
    lemma_mul_is_commutative(x, a);
    lemma_mul_mod_noop_left(a * x, y, m);
    lemma_mul_mod_noop_left(1, y, m);
    lemma_small_mod(x as nat, m as nat);
    lemma_small_mod(y as nat, m as nat);
}

/// Any reduced inverse is the one `mod_inverse` names.
pub proof fn lemma_mod_inverse_is(a: int, m: int, x: int)
    requires
        m > 0,
        is_mod_inverse(x, a, m),
    ensures
        mod_inverse(a, m) == x,
{
    lemma_mod_inverse_unique(a, m, x, mod_inverse(a, m));
}

/// One step of the extended Euclidean algorithm, with the Bezout
/// coefficient of `v` kept reduced modulo `m`, keeps `r == v * s (mod m)`.
proof fn lemma_euclid_step(v: int, m: int, or_: int, r: int, os: int, s: int, q: int, t: int)
    requires
        m > 0,
        r > 0,
        or_ >= 0,
        q == or_ / r,
        t == (q * s) % m,
        or_ % m == (v * os) % m,
        r % m == (v * s) % m,
    ensures
        (or_ % r) % m == (v * ((os + m - t) % m)) % m,
{
    let ns = (os + m - t) % m;
    let nr = or_ % r;
    lemma_fundamental_div_mod(or_, r);
    lemma_fundamental_div_mod(or_, m);
    lemma_fundamental_div_mod(v * os, m);
    lemma_fundamental_div_mod(r, m);
    lemma_fundamental_div_mod(v * s, m);
    lemma_fundamental_div_mod(q * s, m);
    lemma_fundamental_div_mod(os + m - t, m);
    let k1 = or_ / m - (v * os) / m;
    let k2 = r / m - (v * s) / m;
    let k3 = 1 + (q * s) / m - (os + m - t) / m;
    assert(or_ == v * os + m * k1) by (nonlinear_arith)
        requires
            or_ == m * (or_ / m) + or_ % m,
            v * os == m * ((v * os) / m) + (v * os) % m,
            or_ % m == (v * os) % m,
            k1 == or_ / m - (v * os) / m,
    ;
    assert(r == v * s + m * k2) by (nonlinear_arith)
        requires
            r == m * (r / m) + r % m,
            v * s == m * ((v * s) / m) + (v * s) % m,
            r % m == (v * s) % m,
            k2 == r / m - (v * s) / m,
    ;
    assert(ns == os - q * s + m * k3) by (nonlinear_arith)
        requires
            q * s == m * ((q * s) / m) + t,
            os + m - t == m * ((os + m - t) / m) + ns,
            k3 == 1 + (q * s) / m - (os + m - t) / m,
    ;
    assert(nr == m * (k1 - q * k2 - v * k3) + v * ns) by (nonlinear_arith)
        requires
            or_ == r * q + nr,
            or_ == v * os + m * k1,
            r == v * s + m * k2,
            ns == os - q * s + m * k3,
    ;
    lemma_mod_multiples_vanish(k1 - q * k2 - v * k3, v * ns, m);
}

/// The inverse of `value` modulo `modulus`, by the extended Euclidean
/// algorithm; `None` where `value` is 0 or shares a factor with `modulus`.
pub fn invert_uint_mod(value: u64, modulus: u64) -> (r: Option<u64>)
    requires
        modulus > 0,
    ensures
        r is Some <==> invertible(value as nat, modulus as nat),
        r matches Some(x) ==> is_mod_inverse(x as int, value as int, modulus as int),
{
    if value == 0 {
        return None;
    }
    let mut old_r: u64 = modulus;
    let mut r: u64 = value % modulus;
    let mut old_s: u64 = 0;
    let mut s: u64 = 1 % modulus;
    proof {
        lemma_mod_self_0(modulus as int);
        assert(value as int * 0int == 0);
        lemma_small_mod(0, modulus as nat);
        lemma_mod_twice(value as int, modulus as int);
        lemma_mul_mod_noop_right(value as int, 1, modulus as int);
    }
    while r != 0
        invariant
            modulus > 0,
            r < modulus,
            old_r <= modulus,
            old_s < modulus,
            s < modulus,
            gcd(old_r as nat, r as nat) == gcd(modulus as nat, (value % modulus) as nat),
            old_r as int % modulus as int == (value as int * old_s as int) % modulus as int,
            r as int % modulus as int == (value as int * s as int) % modulus as int,
        decreases r,
    {
        let q = old_r / r;
        let new_r = old_r % r;
        let t = multiply_uint_mod(q, s, modulus);
        let new_s = ((old_s as u128 + modulus as u128 - t as u128) % (modulus as u128)) as u64;
        proof {
            lemma_euclid_step(
                value as int,
                modulus as int,
                old_r as int,
                r as int,
                old_s as int,
                s as int,
                q as int,
                t as int,
            );
        }
        old_r = r;
        r = new_r;
        old_s = s;
        s = new_s;
    }
    if old_r == 1 {
        Some(old_s)
    } else {
        None
    }
}

/// `gcd(a, b)` is positive when `a` is.
proof fn lemma_gcd_pos(a: nat, b: nat)
    requires
        a > 0,
    ensures
        gcd(a, b) > 0,
    decreases b,
{
    if b > 0 {
        lemma_gcd_pos(b, a % b);
    }
}

/// A common divisor of `x` and `y` divides `c1 * x + c2 * y`.
proof fn lemma_divides_combination(d: int, x: int, y: int, c1: int, c2: int)
    requires
        d > 0,
        x % d == 0,
        y % d == 0,
    ensures
        (c1 * x + c2 * y) % d == 0,
{
    lemma_fundamental_div_mod(x, d);
    lemma_fundamental_div_mod(y, d);
    let k = c1 * (x / d) + c2 * (y / d);
    assert(c1 * x + c2 * y == k * d) by (nonlinear_arith)
        requires
            x == d * (x / d) + x % d,
            y == d * (y / d) + y % d,
            x % d == 0,
            y % d == 0,
            k == c1 * (x / d) + c2 * (y / d),
    ;
    lemma_mod_multiples_basic(k, d);
}

/// `gcd(a, b)` divides both `a` and `b`.
proof fn lemma_gcd_divides(a: nat, b: nat)
    requires
        a > 0,
    ensures
        a % gcd(a, b) == 0,
        b % gcd(a, b) == 0,
    decreases b,
{
    if b == 0 {
        lemma_mod_self_0(a as int);
        lemma_small_mod(0, a);
    } else {
        let g = gcd(b, a % b);
        lemma_gcd_divides(b, a % b);
        lemma_gcd_pos(b, a % b);
        lemma_fundamental_div_mod(a as int, b as int);
        lemma_divides_combination(g as int, b as int, (a % b) as int, a as int / b as int, 1);
        lemma_mul_is_commutative(b as int, a as int / b as int);
    }
}

/// A value with an inverse modulo `m` is accepted by `invert_uint_mod`.
pub proof fn lemma_inverse_implies_invertible(a: nat, b: nat, m: nat)
    requires
        m > 1,
        (a * b) % m == 1,
    ensures
        invertible(a, m),
{
    if a == 0 {
        assert(a * b == 0);
        lemma_small_mod(0, m);
    }
    let g = gcd(m, a % m);
    lemma_gcd_pos(m, a % m);
    lemma_gcd_divides(m, a % m);
    lemma_fundamental_div_mod(a as int, m as int);
    lemma_divides_combination(g as int, m as int, (a % m) as int, a as int / m as int, 1);
    lemma_mul_is_commutative(m as int, a as int / m as int);
    assert(a % g == 0);
    lemma_fundamental_div_mod((a * b) as int, m as int);
    let q = (a * b) as int / m as int;
    lemma_divides_combination(g as int, a as int, m as int, b as int, -q);
    assert(b as int * a as int + (-q) * m as int == 1) by (nonlinear_arith)
        requires
            (a * b) as int == m as int * q + 1,
    ;
    assert(1int % (g as int) == 0);
    if g > 1 {
        lemma_small_mod(1, g);
    }
}

/// `root` is a primitive `degree`-th root of unity modulo `m`, in the
/// sense the root search tests: `root^(degree/2) == -1 (mod m)`.
pub open spec fn is_primitive_root_spec(root: int, degree: nat, m: int) -> bool {
    root != 0 && pow(root, degree / 2) % m == m - 1
}

/// The candidate that the root search derives from `x`: `x^((m-1)/degree) mod m`.
pub open spec fn primitive_root_candidate(x: int, degree: nat, m: int) -> int {
    pow(x, ((m - 1) / (degree as int)) as nat) % m
}

/// The root search succeeds: `degree` divides `m - 1` and some residue
/// yields a primitive root.
pub open spec fn has_primitive_root(degree: nat, m: int) -> bool {
    &&& (m - 1) % (degree as int) == 0
    &&& exists|x: int|
        0 <= x < m && is_primitive_root_spec(
            #[trigger] primitive_root_candidate(x, degree, m),
            degree,
            m,
        )
}

/// Whether `root` is a primitive `degree`-th root of unity modulo `modulus`.
pub fn is_primitive_root(root: u64, degree: u64, modulus: u64) -> (r: bool)
    requires
        modulus > 0,
    ensures
        r == is_primitive_root_spec(root as int, degree as nat, modulus as int),
{
    if root == 0 {
        return false;
    }
    exponentiate_uint_mod(root, degree / 2, modulus) == modulus - 1
}

/// A primitive `degree`-th root of unity modulo `modulus`: the first
/// candidate `x^((modulus-1)/degree)`, for `x` counting up from 0, that is one.
pub fn get_primitive_root(degree: u64, modulus: u64) -> (r: Option<u64>)
    requires
        modulus > 1,
        degree >= 2,
    ensures
        r is Some <==> has_primitive_root(degree as nat, modulus as int),
        r matches Some(root) ==> root < modulus && is_primitive_root_spec(
            root as int,
            degree as nat,
            modulus as int,
        ),
        r matches Some(root) ==> exists|x: int|
            0 <= x < modulus && root == #[trigger] primitive_root_candidate(
                x,
                degree as nat,
                modulus as int,
            ) && forall|y: int|
                0 <= y < x ==> !is_primitive_root_spec(
                    #[trigger] primitive_root_candidate(y, degree as nat, modulus as int),
                    degree as nat,
                    modulus as int,
                ),
{
    let size_entire_group = modulus - 1;
    let size_quotient_group = size_entire_group / degree;
    proof {
        lemma_fundamental_div_mod(size_entire_group as int, degree as int);
        lemma_mul_is_commutative(degree as int, size_quotient_group as int);
    }
    if size_entire_group - size_quotient_group * degree != 0 {
        return None;
    }
    let mut x: u64 = 0;
    while x < modulus
        invariant
            modulus > 1,
            degree >= 2,
            size_quotient_group == (modulus - 1) / (degree as int),
            (modulus - 1) % (degree as int) == 0,
            x <= modulus,
            forall|y: int|
                0 <= y < x ==> !is_primitive_root_spec(
                    #[trigger] primitive_root_candidate(y, degree as nat, modulus as int),
                    degree as nat,
                    modulus as int,
                ),
        decreases modulus - x,
    {
        let root = exponentiate_uint_mod(x, size_quotient_group, modulus);
        assert(root == primitive_root_candidate(x as int, degree as nat, modulus as int));
        if is_primitive_root(root, degree, modulus) {
            return Some(root);
        }
        x = x + 1;
    }
    None
}

/// `(m - 1)^2 == 1 (mod m)`.
proof fn lemma_minus_one_squared(m: int)
    requires
        m > 1,
    ensures
        ((m - 1) * (m - 1)) % m == 1,
{
    assert((m - 1) * (m - 1) == m * (m - 2) + 1) by (nonlinear_arith);
    lemma_mod_multiples_vanish(m - 2, 1, m);
    lemma_small_mod(1, m as nat);
}

/// An odd power of `-1` is `-1` modulo `m`.
proof fn lemma_minus_one_odd_power(m: int, e: nat)
    requires
        m > 1,
        e % 2 == 1,
    ensures
        pow(m - 1, e) % m == m - 1,
    decreases e,
{
    if e == 1 {
        lemma_pow1(m - 1);
        lemma_small_mod((m - 1) as nat, m as nat);
    } else {
        let e2 = (e - 2) as nat;
        lemma_minus_one_odd_power(m, e2);
        lemma_pow_adds(m - 1, 2, e2);
        lemma_square_is_pow2(m - 1);
        lemma_minus_one_squared(m);
        lemma_mul_mod_noop_general((m - 1) * (m - 1), pow(m - 1, e2), m);
        lemma_small_mod((m - 1) as nat, m as nat);
    }
}

/// A primitive root satisfies `g^degree == 1 (mod m)`.
pub proof fn lemma_primitive_root_order(g: int, d: nat, m: int)
    requires
        m > 1,
        d % 2 == 0,
        pow(g, d / 2) % m == m - 1,
    ensures
        pow(g, d) % m == 1,
{
    let h = d / 2;
    lemma_pow_multiplies(g, h, 2);
    assert(h * 2 == d);
    lemma_square_is_pow2(pow(g, h));
    lemma_mul_mod_noop_general(pow(g, h), pow(g, h), m);
    lemma_minus_one_squared(m);
}

/// Powers of `g` repeat with period `d` once `g^d == 1 (mod m)`.
proof fn lemma_pow_period(g: int, d: nat, m: int, e: nat)
    requires
        m > 1,
        d > 0,
        pow(g, d) % m == 1,
    ensures
        pow(g, e) % m == pow(g, e % d) % m,
{
    let q = e / d;
    let r = e % d;
    lemma_fundamental_div_mod(e as int, d as int);
    lemma_pow_adds(g, d * q, r);
    lemma_pow_multiplies(g, d, q);
    lemma_pow_mod_noop(pow(g, d), q, m);
    lemma1_pow(q);
    lemma_small_mod(1, m as nat);
    lemma_mul_mod_noop_general(pow(pow(g, d), q), pow(g, r), m);
}

/// An odd power of a primitive root of even degree is again one.
proof fn lemma_odd_power_primitive(g: int, e: nat, d: nat, m: int)
    requires
        m > 1,
        d % 2 == 0,
        d >= 2,
        e % 2 == 1,
        pow(g, d / 2) % m == m - 1,
    ensures
        is_primitive_root_spec(pow(g, e) % m, d, m),
{
    let h = d / 2;
    lemma_pow_mod_noop(pow(g, e), h, m);
    lemma_pow_multiplies(g, e, h);
    lemma_pow_multiplies(g, h, e);
    lemma_mul_is_commutative(e as int, h as int);
    lemma_pow_mod_noop(pow(g, h), e, m);
    lemma_minus_one_odd_power(m, e);
    if pow(g, e) % m == 0 {
        lemma0_pow(h);
        lemma_small_mod(0, m as nat);
    }
}

/// `root` is a primitive `degree`-th root of unity modulo `m` and no odd
/// power of it (these are the primitive roots it generates) is smaller.
pub open spec fn is_minimal_primitive_root_spec(root: int, degree: nat, m: int) -> bool {
    &&& is_primitive_root_spec(root, degree, m)
    &&& forall|j: nat| j % 2 == 1 ==> root <= #[trigger] pow(root, j) % m
}

/// The least primitive `degree`-th root of unity modulo `modulus` among
/// the odd powers of the one that `get_primitive_root` finds.
pub fn get_minimal_primitive_root(degree: u64, modulus: u64) -> (r: Option<u64>)
    requires
        modulus > 1,
        degree >= 2,
    ensures
        r is Some <==> has_primitive_root(degree as nat, modulus as int),
        r matches Some(root) ==> root < modulus && (degree % 2 == 0
            ==> is_minimal_primitive_root_spec(root as int, degree as nat, modulus as int)),
{
    let mut root = match get_primitive_root(degree, modulus) {
        Some(g) => g,
        None => {
            return None;
        },
    };
    let ghost g: int = root as int;
    let ghost m: int = modulus as int;
    let ghost mut j0: nat = 1;
    let generator_sq = multiply_uint_mod(root, root, modulus);
    let mut current_generator = root;
    proof {
        lemma_pow1(g);
        lemma_small_mod(root as nat, modulus as nat);
    }
    let mut i: u64 = 0;
    while i < degree
        invariant
            m == modulus as int,
            modulus > 1,
            0 <= g < m,
            generator_sq == (g * g) % m,
            i <= degree,
            current_generator == pow(g, (2 * i + 1) as nat) % m,
            j0 % 2 == 1,
            root == pow(g, j0) % m,
            forall|k: nat| k < i ==> root <= #[trigger] pow(g, 2 * k + 1) % m,
        decreases degree - i,
    {
        if current_generator < root {
            root = current_generator;
            proof {
                j0 = (2 * i + 1) as nat;
            }
        }
        proof {
            lemma_pow_adds(g, (2 * i + 1) as nat, 2);
            lemma_square_is_pow2(g);
            lemma_mul_mod_noop_general(pow(g, (2 * i + 1) as nat), g * g, m);
            assert((2 * i + 1) as nat + 2 == (2 * (i + 1) + 1) as nat);
        }
        current_generator = multiply_uint_mod(current_generator, generator_sq, modulus);
        i = i + 1;
    }
    proof {
        if degree % 2 == 0 {
            let d = degree as nat;
            lemma_odd_power_primitive(g, j0, d, m);
            lemma_primitive_root_order(g, d, m);
            assert forall|j: nat| j % 2 == 1 implies root <= #[trigger] pow(root as int, j) % m by {
                let e = j0 * j;
                lemma_pow_mod_noop(pow(g, j0), j, m);
                lemma_pow_multiplies(g, j0, j);
                lemma_pow_period(g, d, m, e);
                lemma_mul_mod_noop_general(j0 as int, j as int, 2);
                lemma_mod_mod(e as int, 2, d as int / 2);
                let r = e % d;
                assert(r % 2 == 1);
                let k = r / 2;
                assert(r == 2 * k + 1);
                assert(root <= pow(g, 2 * k + 1) % m);
            }
        }
    }
    Some(root)
}

} // verus!
