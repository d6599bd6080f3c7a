use msm_engine::glv::{glv_decompose, recompose_integer, GLVParameters, GlvConstants, Parameters};
use msm_engine::lattice::{get_lattice_basis, num_bits};
use msm_engine::residue::GROUP_ORDER;

struct Lcg(u64);

impl Lcg {
    fn next(&mut self) -> u64 {
        self.0 = self.0.wrapping_mul(6364136223846793005).wrapping_add(1442695040888963407);
        self.0
    }
}

const LAMBDA: u64 = 1669582390241348315;

fn signed_mod(neg: bool, v: u64, n: u64) -> u128 {
    let v = v as u128 % n as u128;
    if neg {
        (n as u128 - v) % n as u128
    } else {
        v
    }
}

fn recompose(((n1, k1), (n2, k2)): ((bool, u64), (bool, u64)), lambda: u64, n: u64) -> u64 {
    let a = signed_mod(n1, k1, n);
    let b = signed_mod(n2, k2, n);
    ((a + b * lambda as u128 % n as u128) % n as u128) as u64
}

#[test]
fn round_trip_over_random_scalars() {
    let mut rng = Lcg(2024);
    let c = Parameters::constants();
    for _ in 0..1000 {
        let k = rng.next() % GROUP_ORDER;
        let d = Parameters::glv_scalar_decomposition_inner(k);
        assert_eq!(recompose(d, c.lambda, c.modulus), k);
        assert!(num_bits((d.0).1) <= c.r_bits / 2 + 1);
        assert!(num_bits((d.1).1) <= c.r_bits / 2 + 1);
    }
}

#[test]
fn modulus_is_left_whole() {
    let d = Parameters::glv_scalar_decomposition_inner(GROUP_ORDER);
    assert_eq!(d, ((false, GROUP_ORDER), (false, 0)));
}

#[test]
fn small_scalars_decompose_exactly() {
    assert_eq!(Parameters::glv_scalar_decomposition_inner(0), ((false, 0), (false, 0)));
    assert_eq!(Parameters::glv_scalar_decomposition_inner(1), ((false, 1), (false, 0)));
    assert_eq!(Parameters::glv_scalar_decomposition_inner(GROUP_ORDER - 1), ((true, 1), (false, 0)));
    assert_eq!(
        Parameters::glv_scalar_decomposition_inner(12345678901234567),
        ((true, 105588826), (false, 521918896))
    );
}

#[test]
fn decomposition_of_scalars_above_the_order() {
    let c = Parameters::constants();
    let k = u64::MAX;
    let d = glv_decompose(&c, k);
    assert_eq!(recompose(d, c.lambda, c.modulus), k % GROUP_ORDER);
}

#[test]
fn other_constants_still_recompose() {
    // A tiny group of order 97, whose cube root of unity is 35.
    let c = GlvConstants { modulus: 97, lambda: 35, q1: 3, q2: 5, b1: 7, b2: 11, b1_is_neg: false, b2_is_neg: true, r_bits: 8 };
    for k in 0..200u64 {
        let d = glv_decompose(&c, k);
        assert_eq!(recompose(d, c.lambda, c.modulus), k % 97, "k = {}", k);
    }
}

#[test]
fn recompose_integer_exact() {
    assert_eq!(recompose_integer(10, 3, 2, 97), 4);
    assert_eq!(recompose_integer(0, 1, 1, 97), 96);
    assert_eq!(recompose_integer(5, 0, 123, 7), 5);
}

#[test]
fn lattice_basis_of_the_residue_group() {
    let ((r1, (n1, t1)), (r2, (n2, t2))) = get_lattice_basis(GROUP_ORDER, LAMBDA);
    assert_eq!((r1, (n1, t1)), (230658714, (true, 1620633455)));
    assert_eq!((r2, (n2, t2)), (1389974741, (false, 230658714)));
    // Each vector lies in the lattice: r - t lambda = 0 mod n.
    for (r, neg, t) in [(r1, n1, t1), (r2, n2, t2)] {
        let t_signed = signed_mod(neg, t, GROUP_ORDER) as u64;
        assert_eq!(recompose_integer(r, t_signed, LAMBDA, GROUP_ORDER), 0);
    }
    let c = Parameters::constants();
    assert_eq!((c.b1, c.b1_is_neg), (t1, n1));
    assert_eq!((c.b2, c.b2_is_neg), (t2, n2));
}

#[test]
fn lattice_basis_of_a_small_modulus() {
    let ((r1, (n1, t1)), (r2, (n2, t2))) = get_lattice_basis(97, 35);
    for (r, neg, t) in [(r1, n1, t1), (r2, n2, t2)] {
        let t_signed = signed_mod(neg, t, 97) as u64;
        assert_eq!(recompose_integer(r, t_signed, 35, 97), 0);
    }
}

#[test]
fn num_bits_exact() {
    assert_eq!(num_bits(0), 0);
    assert_eq!(num_bits(1), 1);
    assert_eq!(num_bits(255), 8);
    assert_eq!(num_bits(256), 9);
    assert_eq!(num_bits(u64::MAX), 64);
}

#[test]
fn lattice_remainders_are_short() {
    let ((r1, _), (r2, _)) = get_lattice_basis(GROUP_ORDER, LAMBDA);
    assert!((r2 as u128) * (r2 as u128) < GROUP_ORDER as u128);
    assert!(r1 < r2);
}
