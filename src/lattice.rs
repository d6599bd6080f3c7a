use vstd::prelude::*;
use crate::group::pow2;
use crate::glv::signed;

verus! {

/// A lattice vector `(r, t)` of the GLV lattice: `r - t lambda` is a multiple
/// of `n`.
pub open spec fn in_lattice(n: nat, lambda: nat, v: (u64, (bool, u64))) -> bool {
    (v.0 - signed(v.1.0, v.1.1 as nat) * lambda) % (n as int) == 0
}

/// The number of bits of `x`.
pub open spec fn bit_length(x: nat) -> nat
    decreases x,
{
    if x == 0 {
        0
    } else {
        1 + bit_length(x / 2)
    }
}

/// The bit length is the `r` with `2^(r - 1) <= x < 2^r`.
proof fn lemma_bit_length(x: nat, r: nat)
    requires
        x < pow2(r),
        r == 0 || pow2((r - 1) as nat) <= x,
    ensures
        bit_length(x) == r,
    decreases r,
{
    if r > 0 {
        crate::algebra::lemma_pow2_positive((r - 1) as nat);
        if r > 1 {
            assert(pow2((r - 1) as nat) == 2 * pow2((r - 2) as nat));
        }
        lemma_bit_length(x / 2, (r - 1) as nat);
    }
}

/// The steps of the extended Euclidean algorithm on `(ra, rb)` with
/// coefficients `(ta, tb)` modulo `n`, while `ra` is at least the square root
/// of `n`: the final pair of remainders and of coefficients.
pub open spec fn euclid_run(n: nat, ra: nat, rb: nat, ta: nat, tb: nat) -> (nat, nat, nat, nat)
    decreases rb,
{
    if ra * ra >= n && rb != 0 && n > 0 {
        euclid_run(n, rb, ra % rb, tb, ((ta - (ra / rb) * tb) % (n as int)) as nat)
    } else {
        (ra, rb, ta, tb)
    }
}

/// A coefficient of at most `max_bits` bits as it is, a larger one negated
/// modulo `n`.
pub open spec fn short_coefficient_spec(t: nat, n: nat, max_bits: nat) -> (bool, nat) {
    if t < pow2(max_bits) {
        (false, t)
    } else {
        (true, (n - t) as nat)
    }
}

/// The number of bits a short lattice coefficient may have: about half the
/// bits of `n`.
pub open spec fn lattice_bits(n: nat) -> nat {
    ((bit_length(n) - 1) / 2 + 1) as nat
}

/// The number of bits of `x`.
pub fn num_bits(x: u64) -> (r: u32)
    ensures
        r == bit_length(x as nat),
        x < pow2(r as nat),
        r == 0 || pow2((r - 1) as nat) <= x,
        r <= 64,
{
    let mut r: u32 = 0;
    let mut t: u128 = 1;
    proof {
        crate::group::lemma_pow2_agrees(64);
        vstd::arithmetic::power2::lemma2_to64();
    }
    while t <= x as u128
        invariant
            t == pow2(r as nat),
            r == 0 || pow2((r - 1) as nat) <= x,
            r <= 64,
            1 <= t <= 0x1_0000_0000_0000_0000,
            pow2(64) == 0x1_0000_0000_0000_0000,
        decreases 0x1_0000_0000_0000_0000 - t,
    {
        proof {
            if r == 64 {
                assert(false);
            }
            crate::algebra::lemma_pow2_mono(r as nat + 1, 64);
        }
        t = t * 2;
        r = r + 1;
    }
    proof {
        lemma_bit_length(x as nat, r as nat);
    }
    r
}

/// Whether `r * r >= n`: whether `r` is at least the square root of `n`.
fn square_at_least(r: u64, n: u64) -> (b: bool)
    ensures
        b == (r * r >= n),
{
    proof {
        assert((r as u128) * (r as u128) <= 0xffff_ffff_ffff_fffe_0000_0000_0000_0001) by (nonlinear_arith)
            requires
                r <= 0xffff_ffff_ffff_ffff,
        ;
    }
    (r as u128) * (r as u128) >= n as u128
}

/// A coefficient modulo `n` as a signed magnitude: the value itself when it
/// has at most `max_bits` bits, else its negation.
fn short_coefficient(t: u64, n: u64, max_bits: u32) -> (r: (bool, u64))
    requires
        t < n,
        max_bits <= 64,
    ensures
        (signed(r.0, r.1 as nat) - t) % (n as int) == 0,
        r.1 < n,
        (r.0, r.1 as nat) == short_coefficient_spec(t as nat, n as nat, max_bits as nat),
{
    let bound = crate::scalar::pow2_u128(max_bits);
    if (t as u128) < bound {
        proof {
            vstd::arithmetic::div_mod::lemma_small_mod(0, n as nat);
        }
        (false, t)
    } else {
        proof {
            crate::algebra::lemma_pow2_positive(max_bits as nat);
            assert(signed(true, (n - t) as nat) - t == -1 * (n as int));
            vstd::arithmetic::div_mod::lemma_mod_multiples_basic(-1, n as int);
        }
        (true, n - t)
    }
}

/// Two short vectors of the lattice `{(r, t) : r = t lambda mod n}`, found by
/// running the extended Euclidean algorithm on `(n, lambda)` until the
/// remainder drops below the square root of `n`. Each vector is returned as
/// `(r, (t < 0, |t|))`; the one computed last comes first.
pub fn get_lattice_basis(n: u64, lambda: u64) -> (r: ((u64, (bool, u64)), (u64, (bool, u64))))
    requires
        n >= 2,
    ensures
        ({
            let (ra, rb, ta, tb) = euclid_run(n as nat, n as nat, lambda as nat, 0, 1);
            &&& r.0.0 == rb
            &&& r.1.0 == ra
            &&& (r.0.1.0, r.0.1.1 as nat) == short_coefficient_spec(tb, n as nat, lattice_bits(n as nat))
            &&& (r.1.1.0, r.1.1.1 as nat) == short_coefficient_spec(ta, n as nat, lattice_bits(n as nat))
        }),
        in_lattice(n as nat, lambda as nat, r.0),
        in_lattice(n as nat, lambda as nat, r.1),
        r.0.1.1 < n,
        r.1.1.1 < n,
        // The search stops at the first remainder below the square root of
        // `n`, unless the remainders ran out first.
        r.1.0 * r.1.0 < n || r.0.0 == 0,
        r.0.0 < r.1.0 || (r.1.0 == n && r.0.0 == lambda),
{
    let max_bits = (num_bits(n) - 1) / 2 + 1;
    let mut ra: u64 = n;
    let mut rb: u64 = lambda;
    let mut ta: u64 = 0;
    let mut tb: u64 = 1;
    let ghost ni = n as int;
    let ghost l = lambda as int;
    proof {
        vstd::arithmetic::div_mod::lemma_mod_self_0(ni);
        vstd::arithmetic::div_mod::lemma_small_mod(0, n as nat);
    }
    while square_at_least(ra, n) && rb != 0
        invariant
            n >= 2,
            ni == n,
            l == lambda,
            (ra - ta * l) % ni == 0,
            (rb - tb * l) % ni == 0,
            ta < n,
            tb < n,
            euclid_run(n as nat, ra as nat, rb as nat, ta as nat, tb as nat) == euclid_run(n as nat, n as nat, lambda as nat, 0, 1),
            rb < ra || (ra == n && rb == lambda),
        decreases rb,
    {
        let q = ra / rb;
        let rem = ra % rb;
        proof {
            assert((q as u128) * (tb as u128) <= 0xffff_ffff_ffff_fffe_0000_0000_0000_0001) by (nonlinear_arith)
                requires
                    q <= 0xffff_ffff_ffff_ffff,
                    tb <= 0xffff_ffff_ffff_ffff,
            ;
        }
        let qt = ((q as u128) * (tb as u128)) % (n as u128);
        let tn = crate::glv::mod_diff(ta as u128, qt, n as u128) as u64;
        proof {
            vstd::arithmetic::div_mod::lemma_sub_mod_noop_right(ta as int, q * tb, n as int);
            let ea = ra - ta * l;
            let eb = rb - tb * l;
            let prod = q * tb;
            let x = ta - qt;
            vstd::arithmetic::div_mod::lemma_fundamental_div_mod(ea, ni);
            vstd::arithmetic::div_mod::lemma_fundamental_div_mod(eb, ni);
            vstd::arithmetic::div_mod::lemma_fundamental_div_mod(prod, ni);
            vstd::arithmetic::div_mod::lemma_fundamental_div_mod(x, ni);
            vstd::arithmetic::div_mod::lemma_fundamental_div_mod(ra as int, rb as int);
            let alpha = ea / ni;
            let beta = eb / ni;
            let delta = prod / ni;
            let gamma = x / ni;
            let m = alpha - q * beta + (gamma - delta) * l;
            assert(tn == ta - prod + ni * delta - ni * gamma);
            assert(rem == ra - rb * q);
            let qi = q as int;
            let tbi = tb as int;
            assert(tn * l == ta * l - (qi * tbi) * l + ni * delta * l - ni * gamma * l) by (nonlinear_arith)
                requires
                    tn == ta - qi * tbi + ni * delta - ni * gamma,
            ;
            assert(qi * (rb - tbi * l) == qi * rb - (qi * tbi) * l) by (nonlinear_arith);
            assert(qi * (ni * beta) == ni * (qi * beta)) by (nonlinear_arith);
            assert(ni * (alpha - qi * beta) + ni * ((gamma - delta) * l) == m * ni) by (nonlinear_arith)
                requires
                    m == alpha - qi * beta + (gamma - delta) * l,
            ;
            assert(ni * delta * l - ni * gamma * l == -(ni * ((gamma - delta) * l))) by (nonlinear_arith);
            assert(rb * q == qi * rb) by (nonlinear_arith)
                requires
                    qi == q,
            ;
            assert(ni * (alpha - qi * beta) == ni * alpha - ni * (qi * beta)) by (nonlinear_arith);
            assert(rb - tbi * l == ni * beta);
            assert(qi * (rb - tbi * l) == qi * (ni * beta));
            assert(rem - tn * l == m * ni);
            vstd::arithmetic::div_mod::lemma_mod_multiples_basic(m, ni);
        }
        ra = rb;
        rb = rem;
        ta = tb;
        tb = tn;
    }
    let s1 = short_coefficient(tb, n, max_bits);
    let s2 = short_coefficient(ta, n, max_bits);
    proof {
        lemma_lattice_sign(ni, l, rb as int, tb as int, signed(s1.0, s1.1 as nat));
        lemma_lattice_sign(ni, l, ra as int, ta as int, signed(s2.0, s2.1 as nat));
    }
    ((rb, s1), (ra, s2))
}

/// Replacing `t` by a value congruent to it keeps `(r, t)` in the lattice.
proof fn lemma_lattice_sign(n: int, l: int, r: int, t: int, s: int)
    requires
        n >= 1,
        (r - t * l) % n == 0,
        (s - t) % n == 0,
    ensures
        (r - s * l) % n == 0,
{
    vstd::arithmetic::div_mod::lemma_fundamental_div_mod(r - t * l, n);
    vstd::arithmetic::div_mod::lemma_fundamental_div_mod(s - t, n);
    let a = (r - t * l) / n;
    let b = (s - t) / n;
    assert(r - s * l == (a - b * l) * n) by (nonlinear_arith)
        requires
            r - t * l == n * a,
            s - t == n * b,
    ;
    vstd::arithmetic::div_mod::lemma_mod_multiples_basic(a - b * l, n);
}

} // verus!
