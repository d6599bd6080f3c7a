use vstd::prelude::*;
use crate::group::pow2;
use crate::algebra::{lemma_pow2_mono, lemma_pow2_positive};

verus! {

/// The constants of a GLV decomposition for scalars modulo a group order
/// `modulus`: the endomorphism eigenvalue `lambda`, the magnitudes and signs
/// of the short lattice basis `b1`, `b2`, and the rounded reciprocals
/// `q1 = round(R |b2| / n)`, `q2 = round(R |b1| / n)` with `R = 2^r_bits`.
#[derive(Clone, Copy, Debug, PartialEq, Eq, Structural)]
pub struct GlvConstants {
    pub modulus: u64,
    pub lambda: u64,
    pub q1: u64,
    pub q2: u64,
    pub b1: u64,
    pub b2: u64,
    pub b1_is_neg: bool,
    pub b2_is_neg: bool,
    pub r_bits: u32,
}

impl GlvConstants {
    /// A modulus of at least two, and a rounding width of one to 64 bits.
    pub open spec fn wf(self) -> bool {
        &&& self.modulus >= 2
        &&& 1 <= self.r_bits <= 64
    }
}

/// The value of a signed magnitude.
pub open spec fn signed(neg: bool, v: nat) -> int {
    if neg {
        -v
    } else {
        v as int
    }
}

/// The approximation of `round(k q / R)` over `r_bits` bits, kept to its low
/// 64 bits.
pub open spec fn round_shift(k: nat, q: nat, r_bits: nat) -> nat {
    ((k * q + pow2((r_bits - 1) as nat)) / pow2(r_bits)) % pow2(64)
}

/// `v` as a magnitude below `2^(r_bits / 2 + 1)` with a sign: values at or
/// above that bound are negated modulo `n`.
pub open spec fn short_form(v: nat, n: nat, r_bits: nat) -> (bool, nat) {
    if v >= pow2(r_bits / 2 + 1) {
        (true, ((n - v) % (n as int)) as nat)
    } else {
        (false, v)
    }
}

/// The second half of the decomposition: the lattice combination of the
/// rounded coefficients, reduced modulo `n`.
pub open spec fn glv_k2(c: GlvConstants, k: nat) -> nat {
    let d1 = round_shift(k, c.q1 as nat, c.r_bits as nat) * c.b1;
    let d2 = round_shift(k, c.q2 as nat, c.r_bits as nat) * c.b2;
    let raw: int = if c.b1_is_neg {
        d2 - d1
    } else {
        d1 - d2
    };
    (raw % (c.modulus as int)) as nat
}

/// The GLV decomposition of `k`: `(k1, k2)` with `k1 = k - k2 lambda`
/// modulo `n`, each as a short signed magnitude. `k` equal to the modulus
/// is left whole, so that a subgroup check multiplies by the scalar itself.
pub open spec fn glv_decomposition(c: GlvConstants, k: nat) -> ((bool, nat), (bool, nat)) {
    if k == c.modulus {
        ((false, k), (false, 0))
    } else {
        let n = c.modulus as int;
        let k2 = glv_k2(c, k);
        let k1 = ((k - k2 * c.lambda) % n) as nat;
        (short_form(k1, c.modulus as nat, c.r_bits as nat), short_form(k2, c.modulus as nat, c.r_bits as nat))
    }
}

/// The decomposition recomposes: `k1 + k2 lambda` equals `k` modulo `n`,
/// with the signs applied.
pub open spec fn glv_round_trip(c: GlvConstants, k: nat, r: ((bool, nat), (bool, nat))) -> bool {
    (signed(r.0.0, r.0.1) + signed(r.1.0, r.1.1) * c.lambda - k) % (c.modulus as int) == 0
}

/// A short signed form is congruent to the value it stands for.
proof fn lemma_short_form(v: nat, n: nat, r_bits: nat)
    requires
        n >= 1,
        v < n,
    ensures
        (signed(short_form(v, n, r_bits).0, short_form(v, n, r_bits).1) - v) % (n as int) == 0,
        short_form(v, n, r_bits).1 < n,
{
    let f = short_form(v, n, r_bits);
    if v >= pow2(r_bits / 2 + 1) {
        let x = n - v;
        vstd::arithmetic::div_mod::lemma_fundamental_div_mod(x, n as int);
        vstd::arithmetic::div_mod::lemma_mod_bound(x, n as int);
        let q = x / (n as int);
        assert(signed(f.0, f.1) - v == (q - 1) * n) by (nonlinear_arith)
            requires
                x == n * q + f.1,
                x == n - v,
                signed(f.0, f.1) == -f.1,
        ;
        vstd::arithmetic::div_mod::lemma_mod_multiples_basic(q - 1, n as int);
    } else {
        assert(signed(f.0, f.1) - v == 0);
    }
}

/// Every decomposition recomposes to its scalar.
pub proof fn lemma_glv_round_trip(c: GlvConstants, k: nat)
    requires
        c.wf(),
    ensures
        glv_round_trip(c, k, glv_decomposition(c, k)),
{
    let n = c.modulus as int;
    let r = glv_decomposition(c, k);
    if k == c.modulus {
        assert(signed(r.0.0, r.0.1) + signed(r.1.0, r.1.1) * c.lambda - k == 0);
    } else {
        let k2 = glv_k2(c, k);
        let x = k - k2 * c.lambda;
        let k1 = (x % n) as nat;
        vstd::arithmetic::div_mod::lemma_mod_bound(x, n);
        vstd::arithmetic::div_mod::lemma_fundamental_div_mod(x, n);
        let d1 = round_shift(k, c.q1 as nat, c.r_bits as nat) * c.b1;
        let d2 = round_shift(k, c.q2 as nat, c.r_bits as nat) * c.b2;
        let raw: int = if c.b1_is_neg { d2 - d1 } else { d1 - d2 };
        vstd::arithmetic::div_mod::lemma_mod_bound(raw, n);
        lemma_short_form(k1, n as nat, c.r_bits as nat);
        lemma_short_form(k2, n as nat, c.r_bits as nat);
        let s1 = signed(r.0.0, r.0.1);
        let s2 = signed(r.1.0, r.1.1);
        vstd::arithmetic::div_mod::lemma_fundamental_div_mod(s1 - k1, n);
        vstd::arithmetic::div_mod::lemma_fundamental_div_mod(s2 - k2, n);
        let a1 = (s1 - k1) / n;
        let a2 = (s2 - k2) / n;
        let q = x / n;
        assert(s1 + s2 * c.lambda - k == n * (a1 + a2 * c.lambda - q)) by (nonlinear_arith)
            requires
                s1 == k1 + n * a1,
                s2 == k2 + n * a2,
                x == n * q + k1,
                x == k - k2 * c.lambda,
        ;
        vstd::arithmetic::div_mod::lemma_mod_multiples_basic(a1 + a2 * c.lambda - q, n);
        assert((a1 + a2 * c.lambda - q) * n == n * (a1 + a2 * c.lambda - q)) by (nonlinear_arith);
    }
}

} // verus!

verus! {

/// `(x - y) mod n`, for 128-bit operands.
pub(crate) fn mod_diff(x: u128, y: u128, n: u128) -> (r: u128)
    requires
        n >= 1,
    ensures
        r == (x - y) % (n as int),
        r < n,
{
    if x >= y {
        (x - y) % n
    } else {
        let m = y - x;
        let r = (n - m % n) % n;
        proof {
            vstd::arithmetic::div_mod::lemma_fundamental_div_mod(m as int, n as int);
            vstd::arithmetic::div_mod::lemma_mod_multiples_vanish(1 + m as int / n as int, x - y, n as int);
            assert(n * (1 + m as int / n as int) + (x - y) == n - m % n) by (nonlinear_arith)
                requires
                    m == n * (m as int / n as int) + m % n,
                    m == y - x,
            ;
        }
        r
    }
}

/// The approximation of `round(k q / 2^r_bits)`, kept to its low 64 bits.
fn round_shift_exec(k: u64, q: u64, half: u128, pr: u128, Ghost(r_bits): Ghost<nat>) -> (r: u64)
    requires
        1 <= r_bits <= 64,
        half == pow2((r_bits - 1) as nat),
        pr == pow2(r_bits),
    ensures
        r == round_shift(k as nat, q as nat, r_bits),
{
    proof {
        lemma_pow2_mono((r_bits - 1) as nat, 63);
        crate::group::lemma_pow2_agrees(63);
        crate::group::lemma_pow2_agrees(64);
        vstd::arithmetic::power2::lemma2_to64();
        lemma_pow2_positive(r_bits);
        assert((k as u128) * (q as u128) <= 0xffff_ffff_ffff_fffe_0000_0000_0000_0001) by (nonlinear_arith)
            requires
                k <= 0xffff_ffff_ffff_ffff,
                q <= 0xffff_ffff_ffff_ffff,
        ;
    }
    let wide: u128 = (k as u128) * (q as u128) + half;
    ((wide / pr) % 0x1_0000_0000_0000_0000u128) as u64
}

/// `v` as a short signed magnitude modulo `n`.
fn short_form_exec(v: u64, n: u64, r_bits: u32) -> (r: (bool, u64))
    requires
        n >= 1,
        v < n,
        r_bits <= 64,
    ensures
        r.0 == short_form(v as nat, n as nat, r_bits as nat).0,
        r.1 as nat == short_form(v as nat, n as nat, r_bits as nat).1,
{
    let bound = crate::scalar::pow2_u128(r_bits / 2 + 1);
    if v as u128 >= bound {
        (true, ((n - v) % n) as u64)
    } else {
        (false, v)
    }
}

/// The GLV decomposition of `k`: two short signed scalars `k1`, `k2` with
/// `k1 + k2 lambda` equal to `k` modulo the group order.
pub fn glv_decompose(c: &GlvConstants, k: u64) -> (r: ((bool, u64), (bool, u64)))
    requires
        c.wf(),
    ensures
        ((r.0.0, r.0.1 as nat), (r.1.0, r.1.1 as nat)) == glv_decomposition(*c, k as nat),
        glv_round_trip(*c, k as nat, ((r.0.0, r.0.1 as nat), (r.1.0, r.1.1 as nat))),
{
    proof {
        lemma_glv_round_trip(*c, k as nat);
    }
    if k == c.modulus {
        return ((false, k), (false, 0));
    }
    let n = c.modulus as u128;
    let pr = crate::scalar::pow2_u128(c.r_bits);
    let half = crate::scalar::pow2_u128(c.r_bits - 1);
    let c1 = round_shift_exec(k, c.q1, half, pr, Ghost(c.r_bits as nat));
    let c2 = round_shift_exec(k, c.q2, half, pr, Ghost(c.r_bits as nat));
    proof {
        assert((c1 as u128) * (c.b1 as u128) <= 0xffff_ffff_ffff_fffe_0000_0000_0000_0001) by (nonlinear_arith)
            requires
                c1 <= 0xffff_ffff_ffff_ffff,
                c.b1 <= 0xffff_ffff_ffff_ffff,
        ;
        assert((c2 as u128) * (c.b2 as u128) <= 0xffff_ffff_ffff_fffe_0000_0000_0000_0001) by (nonlinear_arith)
            requires
                c2 <= 0xffff_ffff_ffff_ffff,
                c.b2 <= 0xffff_ffff_ffff_ffff,
        ;
    }
    let d1 = (c1 as u128) * (c.b1 as u128);
    let d2 = (c2 as u128) * (c.b2 as u128);
    let k2: u64 = if c.b1_is_neg {
        mod_diff(d2, d1, n) as u64
    } else {
        mod_diff(d1, d2, n) as u64
    };
    proof {
        assert((k2 as u128) * (c.lambda as u128) <= 0xffff_ffff_ffff_fffe_0000_0000_0000_0001) by (nonlinear_arith)
            requires
                k2 <= 0xffff_ffff_ffff_ffff,
                c.lambda <= 0xffff_ffff_ffff_ffff,
        ;
    }
    let k1: u64 = mod_diff(k as u128, (k2 as u128) * (c.lambda as u128), n) as u64;
    let f1 = short_form_exec(k1, c.modulus, c.r_bits);
    let f2 = short_form_exec(k2, c.modulus, c.r_bits);
    (f1, f2)
}

/// `k1 - k2 lambda` modulo `modulus`: the scalar that a decomposition, or a
/// lattice vector, stands for.
pub fn recompose_integer(k1: u64, k2: u64, lambda: u64, modulus: u64) -> (r: u64)
    requires
        modulus >= 1,
    ensures
        r == (k1 - k2 * lambda) % (modulus as int),
{
    proof {
        assert((k2 as u128) * (lambda as u128) <= 0xffff_ffff_ffff_fffe_0000_0000_0000_0001) by (nonlinear_arith)
            requires
                k2 <= 0xffff_ffff_ffff_ffff,
                lambda <= 0xffff_ffff_ffff_ffff,
        ;
    }
    mod_diff(k1 as u128, (k2 as u128) * (lambda as u128), modulus as u128) as u64
}

/// A curve model with an efficient endomorphism, and the constants of its
/// GLV decomposition.
pub trait GLVParameters {
    spec fn spec_constants() -> GlvConstants;

    fn constants() -> (r: GlvConstants)
        ensures
            r == Self::spec_constants(),
            r.wf(),
    ;

    /// The GLV decomposition of a scalar under this model's constants.
    fn glv_scalar_decomposition_inner(k: u64) -> (r: ((bool, u64), (bool, u64)))
        ensures
            Self::spec_constants().wf(),
            ((r.0.0, r.0.1 as nat), (r.1.0, r.1.1 as nat)) == glv_decomposition(Self::spec_constants(), k as nat),
            glv_round_trip(Self::spec_constants(), k as nat, ((r.0.0, r.0.1 as nat), (r.1.0, r.1.1 as nat))),
    {
        let c = Self::constants();
        glv_decompose(&c, k)
    }
}

/// The parameters of the residue group of order `2^61 - 1`, whose
/// endomorphism multiplies by a cube root of unity.
#[derive(Clone, Copy, Debug, PartialEq, Eq, Structural)]
pub struct Parameters;

impl GLVParameters for Parameters {
    open spec fn spec_constants() -> GlvConstants {
        GlvConstants {
            modulus: 2305843009213693951,
            lambda: 1669582390241348315,
            q1: 1845269712,
            q2: 12965067640,
            b1: 1620633455,
            b2: 230658714,
            b1_is_neg: true,
            b2_is_neg: false,
            r_bits: 64,
        }
    }

    fn constants() -> (r: GlvConstants) {
        GlvConstants {
            modulus: 2305843009213693951,
            lambda: 1669582390241348315,
            q1: 1845269712,
            q2: 12965067640,
            b1: 1620633455,
            b2: 230658714,
            b1_is_neg: true,
            b2_is_neg: false,
            r_bits: 64,
        }
    }
}

} // verus!

verus! {

/// A value congruent to `y` modulo `n`, with `|y| < 2^31`, has a short form
/// of magnitude `|y|`.
proof fn lemma_short_of_small(v: nat, y: int, n: nat)
    requires
        n == 2305843009213693951,
        v == y % (n as int),
        -0x8000_0000 < y < 0x8000_0000,
    ensures
        short_form(v, n, 64).1 < 0x8000_0000,
        signed(short_form(v, n, 64).0, short_form(v, n, 64).1) == y,
{
    crate::group::lemma_pow2_agrees(32);
    vstd::arithmetic::power2::lemma2_to64();
    lemma_pow2_mono(32, 33);
    if y >= 0 {
        vstd::arithmetic::div_mod::lemma_small_mod(y as nat, n);
    } else {
        vstd::arithmetic::div_mod::lemma_fundamental_div_mod_converse_mod(y, n as int, -1, n + y);
        vstd::arithmetic::div_mod::lemma_small_mod((-y) as nat, n);
    }
}

/// `x` and `y` differ by a multiple of `n`: they have one residue.
proof fn lemma_same_residue(x: int, y: int, m: int, n: int)
    requires
        n > 0,
        x == y + n * m,
    ensures
        x % n == y % n,
{
    vstd::arithmetic::div_mod::lemma_mod_multiples_vanish(m, y, n);
}

/// With the residue group's constants, both halves of the decomposition of
/// every scalar below the group order are shorter than `2^31`, well within
/// `r_bits / 2 + 1` bits: the Babai rounding error is at most `|b1| + |b2|`
/// for `k2` and the sum of the lattice remainders for `k1`.
pub proof fn lemma_parameters_decomposition_short(k: nat)
    requires
        k < Parameters::spec_constants().modulus,
    ensures
        glv_decomposition(Parameters::spec_constants(), k).0.1 < 0x8000_0000,
        glv_decomposition(Parameters::spec_constants(), k).1.1 < 0x8000_0000,
        0x8000_0000 < pow2(Parameters::spec_constants().r_bits as nat / 2 + 1),
{
    let c = Parameters::spec_constants();
    let n: int = 2305843009213693951;
    let lam: int = 1669582390241348315;
    let b1: int = 1620633455;
    let b2: int = 230658714;
    let q1: int = 1845269712;
    let q2: int = 12965067640;
    let r1: int = 230658714;
    let r2: int = 1389974741;
    let big_r: int = 0x1_0000_0000_0000_0000;
    let half: int = 0x8000_0000_0000_0000;
    let ki = k as int;
    crate::group::lemma_pow2_agrees(64);
    crate::group::lemma_pow2_agrees(32);
    vstd::arithmetic::power2::lemma2_to64();
    assert(pow2(63) == half);
    lemma_pow2_mono(32, 33);
    // Rounded coefficients: u R = k q + R/2 - rho, with 0 <= rho < R.
    let x1: int = ki * q1 + half;
    let x2: int = ki * q2 + half;
    vstd::arithmetic::div_mod::lemma_fundamental_div_mod(x1, big_r);
    vstd::arithmetic::div_mod::lemma_fundamental_div_mod(x2, big_r);
    vstd::arithmetic::div_mod::lemma_mod_bound(x1, big_r);
    vstd::arithmetic::div_mod::lemma_mod_bound(x2, big_r);
    let u1 = x1 / big_r;
    let u2 = x2 / big_r;
    let rho1 = x1 % big_r;
    let rho2 = x2 % big_r;
    assert(0 <= u1 < big_r && 0 <= u2 < big_r) by (nonlinear_arith)
        requires
            x1 == big_r * u1 + rho1,
            x2 == big_r * u2 + rho2,
            0 <= rho1 < big_r,
            0 <= rho2 < big_r,
            0 <= ki < n,
            x1 == ki * q1 + half,
            x2 == ki * q2 + half,
            n == 2305843009213693951,
            q1 == 1845269712,
            q2 == 12965067640,
            half == 0x8000_0000_0000_0000,
            big_r == 0x1_0000_0000_0000_0000,
    ;
    vstd::arithmetic::div_mod::lemma_small_mod(u1 as nat, big_r as nat);
    vstd::arithmetic::div_mod::lemma_small_mod(u2 as nat, big_r as nat);
    assert(round_shift(k, c.q1 as nat, 64) == u1);
    assert(round_shift(k, c.q2 as nat, 64) == u2);
    // Rounding errors: e = u n - k b, with |e| < n.
    let e1 = u1 * n - ki * b2;
    let e2 = u2 * n - ki * b1;
    assert(big_r * e1 == half * n - rho1 * n - ki * 1845269712) by (nonlinear_arith)
        requires
            x1 == big_r * u1 + rho1,
            x1 == ki * q1 + half,
            e1 == u1 * n - ki * b2,
            b2 * big_r == q1 * n + 1845269712,
    ;
    assert(big_r * e2 == (big_r * u2) * n - ki * (b1 * big_r)) by (nonlinear_arith)
        requires
            e2 == u2 * n - ki * b1,
    ;
    assert((big_r * u2) * n == (ki * q2) * n + half * n - rho2 * n) by (nonlinear_arith)
        requires
            big_r * u2 == ki * q2 + half - rho2,
    ;
    assert(ki * (b1 * big_r) == (ki * q2) * n + ki * 12965067640) by (nonlinear_arith)
        requires
            b1 * big_r == q2 * n + 12965067640,
    ;
    assert(big_r * e2 == half * n - rho2 * n - ki * 12965067640);
    assert(-n < e1 < n) by (nonlinear_arith)
        requires
            big_r * e1 == half * n - rho1 * n - ki * 1845269712,
            0 <= rho1 < big_r,
            0 <= ki < n,
            n == 2305843009213693951,
            half == 0x8000_0000_0000_0000,
            big_r == 0x1_0000_0000_0000_0000,
    ;
    assert(-n < e2 < n) by (nonlinear_arith)
        requires
            big_r * e2 == half * n - rho2 * n - ki * 12965067640,
            0 <= rho2 < big_r,
            0 <= ki < n,
            n == 2305843009213693951,
            half == 0x8000_0000_0000_0000,
            big_r == 0x1_0000_0000_0000_0000,
    ;
    // k2: the lattice combination.
    let raw = u2 * b2 - u1 * b1;
    assert(n * raw == b2 * e2 - b1 * e1) by (nonlinear_arith)
        requires
            raw == u2 * b2 - u1 * b1,
            e1 == u1 * n - ki * b2,
            e2 == u2 * n - ki * b1,
    ;
    assert(-0x8000_0000 < raw < 0x8000_0000) by (nonlinear_arith)
        requires
            n * raw == b2 * e2 - b1 * e1,
            -n < e1 < n,
            -n < e2 < n,
            n == 2305843009213693951,
            b1 == 1620633455,
            b2 == 230658714,
    ;
    let k2 = glv_k2(c, k);
    assert(k2 == raw % n);
    lemma_short_of_small(k2, raw, n as nat);
    // k1: k minus the lattice point, reduced.
    let y = ki - u1 * r1 - u2 * r2;
    assert(r1 * e1 == r1 * (u1 * n) - r1 * (ki * b2)) by (nonlinear_arith)
        requires
            e1 == u1 * n - ki * b2,
    ;
    assert(r2 * e2 == r2 * (u2 * n) - r2 * (ki * b1)) by (nonlinear_arith)
        requires
            e2 == u2 * n - ki * b1,
    ;
    assert(r1 * (u1 * n) + r2 * (u2 * n) == (r1 * u1 + r2 * u2) * n) by (nonlinear_arith);
    assert(r1 * (ki * b2) + r2 * (ki * b1) == ki * (r1 * b2 + r2 * b1)) by (nonlinear_arith);
    assert(r1 * e1 + r2 * e2 == (r1 * u1 + r2 * u2) * n - ki * (r1 * b2 + r2 * b1));
    assert(r1 * b2 + r2 * b1 == n);
    assert(n * y == n * ki - (r1 * u1 + r2 * u2) * n) by (nonlinear_arith)
        requires
            y == ki - u1 * r1 - u2 * r2,
    ;
    assert(n * y == -(r1 * e1 + r2 * e2)) by (nonlinear_arith)
        requires
            n * y == n * ki - (r1 * u1 + r2 * u2) * n,
            r1 * e1 + r2 * e2 == (r1 * u1 + r2 * u2) * n - ki * n,
    ;
    assert(-0x8000_0000 < y < 0x8000_0000) by (nonlinear_arith)
        requires
            n * y == -(r1 * e1 + r2 * e2),
            -n < e1 < n,
            -n < e2 < n,
            n == 2305843009213693951,
            r1 == 230658714,
            r2 == 1389974741,
    ;
    vstd::arithmetic::div_mod::lemma_fundamental_div_mod(raw, n);
    let a = raw / n;
    // b2 lambda = r2 + n 167012119 and b1 lambda = -r1 + n 1173445489.
    let m = a * lam - u2 * 167012119 + u1 * 1173445489;
    assert(b2 * lam == r2 + n * 167012119);
    assert(b1 * lam == -r1 + n * 1173445489);
    assert(k2 * lam == raw * lam - (n * a) * lam) by (nonlinear_arith)
        requires
            raw == n * a + k2,
    ;
    assert(raw * lam == u2 * (b2 * lam) - u1 * (b1 * lam)) by (nonlinear_arith)
        requires
            raw == u2 * b2 - u1 * b1,
    ;
    assert(u2 * (b2 * lam) == u2 * r2 + n * (u2 * 167012119)) by (nonlinear_arith)
        requires
            b2 * lam == r2 + n * 167012119,
    ;
    assert(u1 * (b1 * lam) == -(u1 * r1) + n * (u1 * 1173445489)) by (nonlinear_arith)
        requires
            b1 * lam == -r1 + n * 1173445489,
    ;
    assert((n * a) * lam == n * (a * lam)) by (nonlinear_arith);
    assert(n * m == n * (a * lam) - n * (u2 * 167012119) + n * (u1 * 1173445489)) by (nonlinear_arith)
        requires
            m == a * lam - u2 * 167012119 + u1 * 1173445489,
    ;
    assert(ki - k2 * lam == y + n * m);
    lemma_same_residue(ki - k2 * lam, y, m, n);
    let k1 = ((ki - k2 * lam) % n) as nat;
    vstd::arithmetic::div_mod::lemma_mod_bound(ki - k2 * lam, n);
    lemma_short_of_small(k1, y, n as nat);
}

} // verus!
