use msm_engine::error::EngineError;
use msm_engine::group::CurveGroup;
use msm_engine::bucket::log2;
use msm_engine::msm::{
    ln_without_floats, multi_scalar_mul_naive, recombine_windows, scalar_mul, window_bits, window_count,
    window_sum_batched, window_sum_direct, VariableBaseMSM,
};
use msm_engine::residue::{Residue, GROUP_ORDER};

struct Lcg(u64);

impl Lcg {
    fn next(&mut self) -> u64 {
        self.0 = self.0.wrapping_mul(6364136223846793005).wrapping_add(1442695040888963407);
        self.0
    }
}

fn reference(bases: &[Residue], scalars: &[u64]) -> Residue {
    let mut acc: u128 = 0;
    for (b, s) in bases.iter().zip(scalars) {
        acc = (acc + (b.value as u128) * (*s as u128 % GROUP_ORDER as u128)) % GROUP_ORDER as u128;
    }
    Residue::new(acc as u64)
}

#[test]
fn empty_input_gives_identity() {
    let bases: Vec<Residue> = vec![];
    let scalars: Vec<u64> = vec![];
    assert_eq!(VariableBaseMSM::multi_scalar_mul(&bases, &scalars).unwrap(), Residue::zero());
    assert_eq!(VariableBaseMSM::multi_scalar_mul_batched(&bases, &scalars, 64).unwrap(), Residue::zero());
    assert_eq!(multi_scalar_mul_naive(&bases, &scalars).unwrap(), Residue::zero());
}

#[test]
fn unit_scalar_gives_the_base() {
    let p = Residue::new(123456789);
    assert_eq!(VariableBaseMSM::multi_scalar_mul(&[p], &[1u64]).unwrap(), p);
    assert_eq!(VariableBaseMSM::multi_scalar_mul_batched(&[p], &[1u64], 64).unwrap(), p);
    assert_eq!(multi_scalar_mul_naive(&[p], &[1u64]).unwrap(), p);
}

#[test]
fn scalars_summing_to_the_order_cancel() {
    let p = Residue::new(987654321);
    let scalars = [1u64, GROUP_ORDER - 1];
    assert_eq!(VariableBaseMSM::multi_scalar_mul(&[p, p], &scalars).unwrap(), Residue::zero());
    assert_eq!(VariableBaseMSM::multi_scalar_mul_batched(&[p, p], &scalars, 61).unwrap(), Residue::zero());
    assert_eq!(multi_scalar_mul_naive(&[p, p], &scalars).unwrap(), Residue::zero());
}

#[test]
fn scalar_mul_exact_values() {
    assert_eq!(scalar_mul(&Residue::new(3), 5u64), Residue::new(15));
    assert_eq!(scalar_mul(&Residue::new(7), 0u64), Residue::zero());
    assert_eq!(scalar_mul(&Residue::new(1), u64::MAX), Residue::new(u64::MAX % GROUP_ORDER));
    assert_eq!(scalar_mul(&Residue::new(2), GROUP_ORDER), Residue::zero());
}

#[test]
fn window_width_does_not_change_the_result() {
    // Below 32 scalars the windows are 3 bits wide (1 bit when batched);
    // from 32 up they grow with ln(n). All agree with the reference.
    let mut rng = Lcg(3);
    for &n in &[1usize, 2, 5, 31, 32, 33, 100, 1000, 3000] {
        let bases: Vec<Residue> = (0..n).map(|_| Residue::new(rng.next())).collect();
        let scalars: Vec<u64> = (0..n).map(|_| rng.next()).collect();
        let expected = reference(&bases, &scalars);
        assert_eq!(VariableBaseMSM::multi_scalar_mul(&bases, &scalars).unwrap(), expected);
        assert_eq!(VariableBaseMSM::multi_scalar_mul_batched(&bases, &scalars, 64).unwrap(), expected);
        assert_eq!(multi_scalar_mul_naive(&bases, &scalars).unwrap(), expected);
    }
}

#[test]
fn batched_with_narrow_scalars() {
    let mut rng = Lcg(5);
    for &bits in &[0u32, 1, 7, 13, 40] {
        let n = 50usize;
        let mask = if bits == 0 { 0 } else { (1u64 << bits) - 1 };
        let bases: Vec<Residue> = (0..n).map(|_| Residue::new(rng.next())).collect();
        let scalars: Vec<u64> = (0..n).map(|_| rng.next() & mask).collect();
        assert_eq!(
            VariableBaseMSM::multi_scalar_mul_batched(&bases, &scalars, bits).unwrap(),
            reference(&bases, &scalars)
        );
    }
}

#[test]
fn zero_and_unit_scalars_mixed() {
    let bases: Vec<Residue> = (1..=40u64).map(Residue::new).collect();
    let scalars: Vec<u64> = (0..40u64).map(|i| i % 3).collect();
    let expected = reference(&bases, &scalars);
    assert_eq!(VariableBaseMSM::multi_scalar_mul(&bases, &scalars).unwrap(), expected);
    assert_eq!(VariableBaseMSM::multi_scalar_mul_batched(&bases, &scalars, 2).unwrap(), expected);
}

#[test]
fn logarithm_approximations() {
    assert_eq!(log2(0), 0);
    assert_eq!(log2(1), 0);
    assert_eq!(log2(2), 1);
    assert_eq!(log2(1000), 10);
    assert_eq!(log2(1024), 10);
    assert_eq!(log2(1025), 11);
    assert_eq!(ln_without_floats(1000), 6);
    assert_eq!(ln_without_floats(32), 3);
    assert_eq!(window_bits(10, 3), 3);
    assert_eq!(window_bits(1000, 3), 8);
    assert_eq!(window_count(64, 8), 8);
    assert_eq!(window_count(61, 8), 8);
    assert_eq!(window_count(0, 5), 1);
}

#[test]
fn windows_recombine_by_hand() {
    let bases: Vec<Residue> = (1..=9u64).map(|i| Residue::new(i * 1000003)).collect();
    let scalars: Vec<u64> = (0..9u64).map(|i| i * 0x0123_4567_89ab_cdef + 1).collect();
    for c in 1..=6u32 {
        let nw = (64 + c - 1) / c;
        let direct: Vec<Residue> = (0..nw).map(|j| window_sum_direct(&bases, &scalars, j * c, c)).collect();
        let batched: Vec<Residue> = (0..nw).map(|j| window_sum_batched(&bases, &scalars, j * c, c)).collect();
        assert_eq!(direct, batched);
        assert_eq!(recombine_windows(&direct, c), reference(&bases, &scalars));
    }
    assert_eq!(recombine_windows::<Residue>(&vec![], 4), Residue::zero());
}

#[test]
fn residue_group_law() {
    let a = Residue::new(GROUP_ORDER + 5);
    assert_eq!(a.value, 5);
    assert_eq!(a.neg().add(&a), Residue::zero());
    assert_eq!(Residue::zero().neg(), Residue::zero());
    assert_eq!(a.double(), Residue::new(10));
    assert_eq!(Residue::new(GROUP_ORDER - 1).add(&Residue::new(3)), Residue::new(2));
    assert!(a.is_valid());
    assert!(!Residue { value: GROUP_ORDER }.is_valid());
}

#[test]
fn mismatched_bases_and_scalars_are_refused() {
    let bases = vec![Residue::new(1), Residue::new(2)];
    let scalars = vec![3u64];
    assert_eq!(VariableBaseMSM::multi_scalar_mul(&bases, &scalars), Err(EngineError::InputLengthMismatch));
    assert_eq!(VariableBaseMSM::multi_scalar_mul_batched(&bases, &scalars, 2), Err(EngineError::InputLengthMismatch));
    assert_eq!(multi_scalar_mul_naive(&bases, &scalars), Err(EngineError::InputLengthMismatch));
}
