use lib::arith::{
    div2_uint_mod, exponentiate_uint_mod, get_barrett, get_barrett_crs, log2, log2_ceil,
    log2_ceil_usize, multiply_uint_mod,
};
use lib::ntt::{
    build_ntt_tables, build_ntt_tables_alt, powers_of_primitive_root, reverse_bits,
    scale_powers_u32, scale_powers_u64,
};
use lib::number_theory::{
    get_minimal_primitive_root, get_primitive_root, invert_uint_mod, is_primitive_root,
};

#[test]
fn log2_is_floor() {
    assert_eq!(log2(1), 0);
    assert_eq!(log2(2), 1);
    assert_eq!(log2(3), 1);
    assert_eq!(log2(2048), 11);
    assert_eq!(log2(2049), 11);
    assert_eq!(log2(u64::MAX), 63);
}

#[test]
fn log2_ceil_is_ceiling() {
    assert_eq!(log2_ceil(0), 0);
    assert_eq!(log2_ceil(1), 0);
    assert_eq!(log2_ceil(2), 1);
    assert_eq!(log2_ceil(3), 2);
    assert_eq!(log2_ceil(560), 10);
    assert_eq!(log2_ceil(1 << 40), 40);
    assert_eq!(log2_ceil((1 << 40) + 1), 41);
    assert_eq!(log2_ceil(u64::MAX), 64);
    assert_eq!(log2_ceil_usize(48), 6);
    assert_eq!(log2_ceil_usize(64), 6);
}

#[test]
fn modular_arithmetic_helpers() {
    assert_eq!(multiply_uint_mod(u64::MAX, u64::MAX, 1000000007), 114944269);
    assert_eq!(exponentiate_uint_mod(3, 200, 1000000007), 136318165);
    assert_eq!(exponentiate_uint_mod(7, 0, 13), 1);
    assert_eq!(div2_uint_mod(5, 13), 9);
    assert_eq!(div2_uint_mod(6, 13), 3);
}

#[test]
fn barrett_constants() {
    assert_eq!(get_barrett_crs(1), (0, 0));
    assert_eq!(get_barrett_crs(2), (0, 1u64 << 63));
    assert_eq!(get_barrett_crs(268369921), (16144578669088582089, 68736257792));
    let (lo, hi) = get_barrett(&[268369921, 249561089]);
    assert_eq!(lo, [16144578669088582089, 10966983149909726427, 0, 0]);
    assert_eq!(hi, [68736257792, 73916747789, 0, 0]);
}

#[test]
fn inverse_modulo() {
    assert_eq!(invert_uint_mod(268369921, 249561089), Some(97389680));
    assert_eq!(invert_uint_mod(249561089, 268369921), Some(163640210));
    assert_eq!(invert_uint_mod(3, 7), Some(5));
    assert_eq!(invert_uint_mod(0, 7), None);
    assert_eq!(invert_uint_mod(6, 9), None);
    assert_eq!(invert_uint_mod(14, 7), None);
    assert_eq!(invert_uint_mod(5, 1), Some(0));
}

#[test]
fn primitive_roots() {
    assert!(is_primitive_root(66687, 4096, 268369921));
    assert!(!is_primitive_root(0, 4096, 268369921));
    assert!(!is_primitive_root(1, 4096, 268369921));
    // 4096 does not divide 100 - 1
    assert_eq!(get_primitive_root(4096, 101), None);
    let g = get_primitive_root(4096, 268369921).unwrap();
    assert!(is_primitive_root(g, 4096, 268369921));
    assert_eq!(get_minimal_primitive_root(4096, 268369921), Some(66687));
    assert_eq!(get_minimal_primitive_root(4096, 249561089), Some(158221));
    assert_eq!(get_minimal_primitive_root(4, 13), Some(5));
}

#[test]
fn bit_reversal() {
    assert_eq!(reverse_bits(1, 11), 1024);
    assert_eq!(reverse_bits(5, 11), 1280);
    assert_eq!(reverse_bits(0b1101, 4), 0b1011);
    assert_eq!(reverse_bits(0xff, 0), 0);
    assert_eq!(reverse_bits(1, 64), 1u64 << 63);
}

#[test]
fn powers_stored_bit_reversed() {
    let p = powers_of_primitive_root(5, 13, 2);
    // positions 0,2,1,3 hold 5^0, 5^1, 5^2, 5^3 mod 13
    assert_eq!(p, vec![1, 12, 5, 8]);
}

#[test]
fn scaled_powers() {
    assert_eq!(scale_powers_u32(13, 2, &[1, 12, 99]), vec![330382099, 3964585196]);
    assert_eq!(scale_powers_u64(13, 1, &[1]), vec![1418980313362273201]);
}

#[test]
fn small_ntt_tables() {
    let t = build_ntt_tables(2, &[13]);
    assert_eq!(t.len(), 1);
    // minimal primitive 4th root of unity mod 13 is 5, its inverse is 8
    assert_eq!(t[0][0], vec![1, 5]);
    assert_eq!(t[0][2], vec![7, 4]);
    let w = build_ntt_tables_alt(2, &[13]);
    assert_eq!(w[0][0], vec![1, 5]);
    assert_eq!(w[0][1], vec![1418980313362273201, 7094901566811366006]);
}
