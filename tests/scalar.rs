use msm_engine::group::CurveGroup;
use msm_engine::msm::{multi_scalar_mul_naive, scalar_mul, VariableBaseMSM};
use msm_engine::residue::{Residue, GROUP_ORDER};
use msm_engine::scalar::{BigInteger256, ScalarRepr};

struct Lcg(u64);

impl Lcg {
    fn next(&mut self) -> u64 {
        self.0 = self.0.wrapping_mul(6364136223846793005).wrapping_add(1442695040888963407);
        self.0
    }
}

fn big(limbs: [u64; 4]) -> BigInteger256 {
    BigInteger256 { limbs }
}

/// The value of a 256-bit scalar modulo the group order.
fn reduce(s: &BigInteger256) -> u128 {
    let q = GROUP_ORDER as u128;
    let mut acc: u128 = 0;
    for &l in s.limbs.iter().rev() {
        // acc * 2^64 + l, modulo q, in two 32-bit steps.
        acc = (acc << 32) % q;
        acc = (acc << 32) % q;
        acc = (acc + l as u128 % q) % q;
    }
    acc
}

fn reference(bases: &[Residue], scalars: &[BigInteger256]) -> Residue {
    let q = GROUP_ORDER as u128;
    let mut acc: u128 = 0;
    for (b, s) in bases.iter().zip(scalars) {
        acc = (acc + (b.value as u128) * reduce(s)) % q;
    }
    Residue::new(acc as u64)
}

#[test]
fn window_digits_of_a_256_bit_scalar() {
    let s = big([0x0123_4567_89ab_cdef, 0xfedc_ba98_7654_3210, 0x1111_2222_3333_4444, 0x8000_0000_0000_0001]);
    assert_eq!(s.window_digit(0, 8), 0xef);
    assert_eq!(s.window_digit(60, 8), 0x00);
    assert_eq!(s.window_digit(56, 16), 0x1001);
    // A window across the first limb boundary.
    assert_eq!(s.window_digit(60, 12), 0x100);
    assert_eq!(s.window_digit(124, 8), 0x4f);
    assert_eq!(s.window_digit(255, 1), 1);
    assert_eq!(s.window_digit(192, 1), 1);
    assert_eq!(s.window_digit(256, 5), 0);
    assert_eq!(s.window_digit(1000, 30), 0);
    assert_eq!(<BigInteger256 as ScalarRepr>::bits(), 256);
    assert!(BigInteger256::from_u64(1).is_one());
    assert!(!big([1, 0, 0, 1]).is_one());
    assert_eq!(7u64.window_digit(1, 2), 3);
    assert_eq!(u64::MAX.window_digit(63, 30), 1);
}

#[test]
fn msm_with_256_bit_scalars() {
    let mut rng = Lcg(17);
    for &n in &[0usize, 1, 3, 31, 32, 100, 500] {
        let bases: Vec<Residue> = (0..n).map(|_| Residue::new(rng.next())).collect();
        let scalars: Vec<BigInteger256> =
            (0..n).map(|_| big([rng.next(), rng.next(), rng.next(), rng.next()])).collect();
        let expected = reference(&bases, &scalars);
        assert_eq!(VariableBaseMSM::multi_scalar_mul(&bases, &scalars).unwrap(), expected);
        assert_eq!(VariableBaseMSM::multi_scalar_mul_batched(&bases, &scalars, 256).unwrap(), expected);
        assert_eq!(multi_scalar_mul_naive(&bases, &scalars).unwrap(), expected);
    }
}

#[test]
fn unit_and_order_with_256_bit_scalars() {
    let p = Residue::new(424242);
    let one = BigInteger256::from_u64(1);
    let minus_one = BigInteger256::from_u64(GROUP_ORDER - 1);
    assert_eq!(VariableBaseMSM::multi_scalar_mul(&[p], &[one]).unwrap(), p);
    assert_eq!(VariableBaseMSM::multi_scalar_mul(&[p, p], &[one, minus_one]).unwrap(), Residue::zero());
    // 2^192 times p.
    let s = big([0, 0, 0, 1]);
    let mut e = p;
    for _ in 0..192 {
        e = e.double();
    }
    assert_eq!(scalar_mul(&p, s), e);
    assert_eq!(VariableBaseMSM::multi_scalar_mul_batched(&[p], &[s], 193).unwrap(), e);
}
