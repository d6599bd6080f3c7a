use vstd::prelude::*;
use crate::group::{pow2, lemma_pow2_agrees};
use crate::algebra::{lemma_pow2_adds, lemma_pow2_mono, lemma_pow2_positive};
use crate::window::digit;

verus! {

/// The widest window a digit can be read from.
pub const MAX_DIGIT_BITS: u32 = 30;

/// The big-integer representation of a scalar, as the multiplication
/// algorithms read it: its value, a bound on its bits, its window digits,
/// and whether it is one.
pub trait ScalarRepr: Sized + Copy {
    /// The integer the representation stands for.
    spec fn value(&self) -> nat;

    /// Every value of the type has fewer than this many bits.
    spec fn spec_bits() -> nat;

    proof fn lemma_value_bound(s: Self)
        ensures
            s.value() < pow2(Self::spec_bits()),
    ;

    /// The bit width of the representation.
    fn bits() -> (r: u32)
        ensures
            r == Self::spec_bits(),
    ;

    /// The digit of the window of `c` bits that starts at bit `w`.
    fn window_digit(&self, w: u32, c: u32) -> (d: usize)
        requires
            1 <= c <= MAX_DIGIT_BITS,
        ensures
            d == digit(self.value(), w as nat, c as nat),
    ;

    /// Whether the value is one.
    fn is_one(&self) -> (b: bool)
        ensures
            b == (self.value() == 1),
    ;
}

/// `2^e` as a 128-bit integer.
pub(crate) fn pow2_u128(e: u32) -> (r: u128)
    requires
        e <= 64,
    ensures
        r == pow2(e as nat),
{
    let mut r: u128 = 1;
    let mut i: u32 = 0;
    while i < e
        invariant
            i <= e <= 64,
            r == pow2(i as nat),
        decreases e - i,
    {
        proof {
            lemma_pow2_mono(i as nat + 1, 64);
            lemma_pow2_agrees(64);
            vstd::arithmetic::power2::lemma2_to64();
        }
        r = r * 2;
        i = i + 1;
    }
    r
}

/// A digit of a value below `2^bound` is 0 in every window from `bound` up.
proof fn lemma_digit_above(v: nat, bound: nat, w: nat, c: nat)
    requires
        v < pow2(bound),
        bound <= w,
    ensures
        digit(v, w, c) == 0,
{
    lemma_pow2_mono(bound, w);
    lemma_pow2_positive(c);
    vstd::arithmetic::div_mod::lemma_basic_div(v as int, pow2(w) as int);
    vstd::arithmetic::div_mod::lemma_small_mod(0, pow2(c));
}

/// Reading a window from a 128-bit slice `x` of a value: when
/// `v = a + 2^base (x + 2^128 rest)` with `a < 2^base`, the window of `c` bits
/// at `base + r` (with `r < 64`) is the window at `r` of `x`.
proof fn lemma_digit_slice(v: nat, a: nat, x: nat, rest: nat, base: nat, r: nat, c: nat)
    requires
        v == a + pow2(base) * (x + pow2(128) * rest),
        a < pow2(base),
        r < 64,
        c <= 64,
    ensures
        digit(v, base + r, c) == (x / pow2(r)) % pow2(c),
{
    let pb = pow2(base) as int;
    let pr = pow2(r) as int;
    let pc = pow2(c) as int;
    let xi = x as int;
    let ri = rest as int;
    let p128 = pow2(128) as int;
    let pk = pow2((128 - r) as nat) as int;
    let pm = pow2((128 - r - c) as nat) as int;
    lemma_pow2_positive(base);
    lemma_pow2_positive(r);
    lemma_pow2_positive(c);
    let t: int = xi + p128 * ri;
    assert(v == t * pb + a) by (nonlinear_arith)
        requires
            v == a + pb * (xi + p128 * ri),
            t == xi + p128 * ri,
    ;
    vstd::arithmetic::div_mod::lemma_fundamental_div_mod_converse_div(v as int, pb, t, a as int);
    lemma_pow2_adds(base, r);
    vstd::arithmetic::div_mod::lemma_div_denominator(v as int, pb, pr);
    // 2^128 = 2^r 2^(128 - r), and 2^(128 - r) = 2^c 2^(128 - r - c).
    lemma_pow2_adds(r, (128 - r) as nat);
    lemma_pow2_adds(c, (128 - r - c) as nat);
    assert(r + (128 - r) as nat == 128);
    assert(c + (128 - r - c) as nat == (128 - r) as nat);
    let k: int = pk * ri;
    assert(t == pr * k + xi) by (nonlinear_arith)
        requires
            t == xi + p128 * ri,
            p128 == pr * pk,
            k == pk * ri,
    ;
    vstd::arithmetic::div_mod::lemma_fundamental_div_mod(xi, pr);
    vstd::arithmetic::div_mod::lemma_mod_bound(xi, pr);
    let xq = xi / pr;
    let xr = xi % pr;
    assert(t == (xq + k) * pr + xr) by (nonlinear_arith)
        requires
            t == pr * k + xi,
            xi == pr * xq + xr,
    ;
    vstd::arithmetic::div_mod::lemma_fundamental_div_mod_converse_div(t, pr, xq + k, xr);
    let m: int = pm * ri;
    assert(k == pc * m) by (nonlinear_arith)
        requires
            k == pk * ri,
            pk == pc * pm,
            m == pm * ri,
    ;
    vstd::arithmetic::div_mod::lemma_mod_multiples_vanish(m, xq, pc);
}

impl ScalarRepr for u64 {
    open spec fn value(&self) -> nat {
        *self as nat
    }

    open spec fn spec_bits() -> nat {
        64
    }

    proof fn lemma_value_bound(s: Self) {
        lemma_pow2_agrees(64);
        vstd::arithmetic::power2::lemma2_to64();
    }

    fn bits() -> (r: u32) {
        64
    }

    fn window_digit(&self, w: u32, c: u32) -> (d: usize) {
        proof {
            lemma_pow2_positive(c as nat);
            lemma_pow2_mono(c as nat, MAX_DIGIT_BITS as nat);
            lemma_pow2_agrees(30);
            vstd::arithmetic::power2::lemma2_to64();
        }
        if w >= 64 {
            proof {
                Self::lemma_value_bound(*self);
                lemma_digit_above(*self as nat, 64, w as nat, c as nat);
            }
            0
        } else {
            let pw = pow2_u128(w);
            let pc = pow2_u128(c);
            proof {
                lemma_pow2_positive(w as nat);
            }
            (((*self as u128) / pw) % pc) as usize
        }
    }

    fn is_one(&self) -> (b: bool) {
        *self == 1
    }
}

/// A 256-bit unsigned integer in four 64-bit limbs, least significant first.
#[derive(Clone, Copy, Debug, PartialEq, Eq)]
pub struct BigInteger256 {
    pub limbs: [u64; 4],
}

/// The value of four limbs, least significant first.
pub open spec fn limbs_value(l0: nat, l1: nat, l2: nat, l3: nat) -> nat {
    l0 + pow2(64) * (l1 + pow2(64) * (l2 + pow2(64) * l3))
}

/// The powers of two that a limb stands for.
proof fn lemma_limb_powers()
    ensures
        pow2(64) == 0x1_0000_0000_0000_0000,
        pow2(128) == pow2(64) * pow2(64),
        pow2(192) == pow2(128) * pow2(64),
        pow2(256) == pow2(192) * pow2(64),
        pow2(0) == 1,
{
    lemma_pow2_agrees(64);
    vstd::arithmetic::power2::lemma2_to64();
    lemma_pow2_adds(64, 64);
    lemma_pow2_adds(128, 64);
    lemma_pow2_adds(192, 64);
}

impl BigInteger256 {
    /// The integer `x`.
    pub fn from_u64(x: u64) -> (r: BigInteger256)
        ensures
            r.value() == x,
    {
        let r = BigInteger256 { limbs: [x, 0, 0, 0] };
        proof {
            assert(r.limbs@[0] == x && r.limbs@[1] == 0 && r.limbs@[2] == 0 && r.limbs@[3] == 0);
            assert(pow2(64) * (0 + pow2(64) * (0 + pow2(64) * 0)) == 0) by (nonlinear_arith);
        }
        r
    }
}

impl ScalarRepr for BigInteger256 {
    open spec fn value(&self) -> nat {
        limbs_value(self.limbs@[0] as nat, self.limbs@[1] as nat, self.limbs@[2] as nat, self.limbs@[3] as nat)
    }

    open spec fn spec_bits() -> nat {
        256
    }

    proof fn lemma_value_bound(s: Self) {
        lemma_limb_powers();
        let p = pow2(64) as int;
        let (l0, l1, l2, l3) = (s.limbs@[0] as int, s.limbs@[1] as int, s.limbs@[2] as int, s.limbs@[3] as int);
        assert(l0 + p * (l1 + p * (l2 + p * l3)) < p * p * p * p) by (nonlinear_arith)
            requires
                0 <= l0 < p,
                0 <= l1 < p,
                0 <= l2 < p,
                0 <= l3 < p,
        {
            assert(l2 + p * l3 <= p * p - 1);
            assert(l1 + p * (l2 + p * l3) <= p * p * p - 1);
        }
    }

    fn bits() -> (r: u32) {
        256
    }

    fn window_digit(&self, w: u32, c: u32) -> (d: usize) {
        proof {
            lemma_limb_powers();
            lemma_pow2_positive(c as nat);
            lemma_pow2_mono(c as nat, MAX_DIGIT_BITS as nat);
            lemma_pow2_agrees(30);
            vstd::arithmetic::power2::lemma2_to64();
        }
        let q = w / 64;
        let r = w % 64;
        if q >= 4 {
            proof {
                Self::lemma_value_bound(*self);
                lemma_digit_above(self.value(), 256, w as nat, c as nat);
            }
            return 0;
        }
        let lo = self.limbs[q as usize] as u128;
        let hi: u128 = if q < 3 {
            self.limbs[(q + 1) as usize] as u128
        } else {
            0
        };
        proof {
            assert(hi * 0x1_0000_0000_0000_0000 + lo <= 0xffff_ffff_ffff_ffff_ffff_ffff_ffff_ffff) by (nonlinear_arith)
                requires
                    hi <= 0xffff_ffff_ffff_ffff,
                    lo <= 0xffff_ffff_ffff_ffff,
            ;
        }
        let x: u128 = hi * 0x1_0000_0000_0000_0000 + lo;
        let pw = pow2_u128(r);
        let pc = pow2_u128(c);
        proof {
            lemma_pow2_positive(r as nat);
            let p = pow2(64) as int;
            let (l0, l1, l2, l3) = (
                self.limbs@[0] as int,
                self.limbs@[1] as int,
                self.limbs@[2] as int,
                self.limbs@[3] as int,
            );
            let v = self.value() as int;
            assert(w as nat == 64 * q + r);
            assert(0 <= l0 < p && 0 <= l1 < p && 0 <= l2 < p && 0 <= l3 < p);
            if q == 0 {
                assert(v == 0 + pow2(0) * (x + pow2(128) * (l2 + p * l3))) by (nonlinear_arith)
                    requires
                        v == l0 + p * (l1 + p * (l2 + p * l3)),
                        x == l1 * p + l0,
                        pow2(128) == p * p,
                        pow2(0) == 1,
                ;
                lemma_digit_slice(v as nat, 0, x as nat, (l2 + p * l3) as nat, 0, r as nat, c as nat);
            } else if q == 1 {
                assert(v == l0 + pow2(64) * (x + pow2(128) * l3)) by (nonlinear_arith)
                    requires
                        v == l0 + p * (l1 + p * (l2 + p * l3)),
                        x == l2 * p + l1,
                        pow2(128) == p * p,
                        p == pow2(64),
                ;
                lemma_digit_slice(v as nat, l0 as nat, x as nat, l3 as nat, 64, r as nat, c as nat);
            } else if q == 2 {
                assert(l0 + p * l1 < pow2(128)) by (nonlinear_arith)
                    requires
                        0 <= l0 < p,
                        0 <= l1 < p,
                        pow2(128) == p * p,
                {
                    assert(p * l1 <= p * (p - 1));
                }
                assert(v == (l0 + p * l1) + pow2(128) * (x + pow2(128) * 0)) by (nonlinear_arith)
                    requires
                        v == l0 + p * (l1 + p * (l2 + p * l3)),
                        x == l3 * p + l2,
                        pow2(128) == p * p,
                ;
                lemma_digit_slice(v as nat, (l0 + p * l1) as nat, x as nat, 0, 128, r as nat, c as nat);
            } else {
                assert(l0 + p * (l1 + p * l2) < pow2(192)) by (nonlinear_arith)
                    requires
                        0 <= l0 < p,
                        0 <= l1 < p,
                        0 <= l2 < p,
                        pow2(192) == p * p * p,
                {
                    assert(l1 + p * l2 <= p * p - 1);
                    assert(p * (l1 + p * l2) <= p * (p * p - 1));
                }
                assert(v == (l0 + p * (l1 + p * l2)) + pow2(192) * (x + pow2(128) * 0)) by (nonlinear_arith)
                    requires
                        v == l0 + p * (l1 + p * (l2 + p * l3)),
                        x == l3,
                        pow2(192) == p * p * p,
                ;
                lemma_digit_slice(v as nat, (l0 + p * (l1 + p * l2)) as nat, x as nat, 0, 192, r as nat, c as nat);
            }
        }
        ((x / pw) % pc) as usize
    }

    fn is_one(&self) -> (b: bool) {
        proof {
            lemma_limb_powers();
            let p = pow2(64) as int;
            let (l0, l1, l2, l3) = (
                self.limbs@[0] as int,
                self.limbs@[1] as int,
                self.limbs@[2] as int,
                self.limbs@[3] as int,
            );
            assert((l0 + p * (l1 + p * (l2 + p * l3)) == 1) == (l0 == 1 && l1 == 0 && l2 == 0 && l3 == 0))
                by (nonlinear_arith)
                requires
                    0 <= l0 < p,
                    0 <= l1,
                    0 <= l2,
                    0 <= l3,
                    p > 1,
            {
                if l1 + p * (l2 + p * l3) > 0 {
                    assert(p * (l1 + p * (l2 + p * l3)) >= p);
                }
                if l2 + p * l3 > 0 {
                    assert(p * (l2 + p * l3) >= p);
                }
                if l3 > 0 {
                    assert(p * l3 >= p);
                }
            }
        }
        self.limbs[0] == 1 && self.limbs[1] == 0 && self.limbs[2] == 0 && self.limbs[3] == 0
    }
}

} // verus!
