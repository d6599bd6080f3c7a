use vstd::prelude::*;
use crate::group::{CurveGroup, all_valid, smul, msm, pow2};
use crate::algebra::{double_times, lemma_double_times, lemma_msm_add, lemma_msm_ext, lemma_msm_scale, lemma_msm_valid, lemma_msm_zero, lemma_pow2_adds, lemma_pow2_positive, lemma_smul_identity, lemma_smul_valid};

verus! {

/// The digit of `s` in the window of `c` bits that starts at bit `w`.
pub open spec fn digit(s: nat, w: nat, c: nat) -> nat {
    (s / pow2(w)) % pow2(c)
}

/// The digits of all scalars in one window.
pub open spec fn window_digits(scalars: Seq<nat>, w: nat, c: nat) -> Seq<nat> {
    Seq::new(scalars.len(), |i: int| digit(scalars[i], w, c))
}

/// The sum of one window: each base times its scalar's digit there.
pub open spec fn window_sum<G: CurveGroup>(bases: Seq<G>, scalars: Seq<nat>, w: nat, c: nat) -> G {
    msm(bases, window_digits(scalars, w, c))
}

/// The sums of the windows `[0, c), [c, 2c), ...`, `nw` of them.
pub open spec fn window_sums<G: CurveGroup>(bases: Seq<G>, scalars: Seq<nat>, c: nat, nw: nat) -> Seq<G> {
    Seq::new(nw, |j: int| window_sum(bases, scalars, (j * c) as nat, c))
}

/// Pippenger recombination of the windows from `j` up: from the highest
/// window down, add the window sum, then double `c` times.
pub open spec fn horner<G: CurveGroup>(sums: Seq<G>, c: nat, j: nat) -> G
    decreases sums.len() - j,
{
    if j >= sums.len() {
        G::identity()
    } else {
        double_times(horner(sums, c, j + 1).plus(sums[j as int]), c)
    }
}

/// The lowest window sum plus the recombination of the windows above it.
pub open spec fn recombine<G: CurveGroup>(sums: Seq<G>, c: nat) -> G {
    if sums.len() == 0 {
        G::identity()
    } else {
        sums[0].plus(horner(sums, c, 1))
    }
}

/// The result of the windowed method with window width `c` over `nw` windows.
pub open spec fn windowed_msm<G: CurveGroup>(bases: Seq<G>, scalars: Seq<nat>, c: nat, nw: nat) -> G {
    recombine(window_sums(bases, scalars, c, nw), c)
}

/// The scalars shifted right by `w` bits.
pub open spec fn shifted_scalars(scalars: Seq<nat>, w: nat) -> Seq<nat> {
    Seq::new(scalars.len(), |i: int| shift_right(scalars[i], w))
}

/// `s` shifted right by `w` bits.
pub open spec fn shift_right(s: nat, w: nat) -> nat {
    s / pow2(w)
}

proof fn lemma_window_split<G: CurveGroup>(bases: Seq<G>, scalars: Seq<nat>, c: nat, j: nat)
    requires
        bases.len() == scalars.len(),
        all_valid(bases),
    ensures
        msm(bases, shifted_scalars(scalars, j * c)) == window_sum(bases, scalars, j * c, c).plus(
            smul(pow2(c), msm(bases, shifted_scalars(scalars, (j + 1) * c))),
        ),
{
    let n = bases.len();
    let x = shifted_scalars(scalars, j * c);
    let d = window_digits(scalars, j * c, c);
    let y = shifted_scalars(scalars, (j + 1) * c);
    let z = Seq::new(n, |i: int| pow2(c) * y[i]);
    assert(scalars.len() == n);
    assert(x.len() == scalars.len());
    assert(d.len() == n);
    assert(z.len() == n);
    lemma_pow2_positive(j * c);
    lemma_pow2_positive(c);
    lemma_pow2_adds(j * c, c);
    assert((j + 1) * c == j * c + c) by (nonlinear_arith);
    assert forall|i: int| 0 <= i < n implies x[i] == d[i] + z[i] by {
        let s = scalars[i];
        let q = s / pow2(j * c);
        vstd::arithmetic::div_mod::lemma_fundamental_div_mod(q as int, pow2(c) as int);
        vstd::arithmetic::div_mod::lemma_div_denominator(s as int, pow2(j * c) as int, pow2(c) as int);
        assert(pow2(c) * (q / pow2(c)) == (q / pow2(c)) * pow2(c)) by (nonlinear_arith);
    }
    lemma_msm_add(bases, d, z, x, n);
    lemma_msm_scale(bases, y, z, pow2(c), n);
}

proof fn lemma_horner<G: CurveGroup>(bases: Seq<G>, scalars: Seq<nat>, c: nat, nw: nat, j: nat)
    requires
        bases.len() == scalars.len(),
        all_valid(bases),
        1 <= j <= nw,
        forall|i: int| 0 <= i < scalars.len() ==> scalars[i] < pow2(c * nw),
    ensures
        horner(window_sums(bases, scalars, c, nw), c, j) == smul(pow2(c), msm(bases, shifted_scalars(scalars, j * c))),
    decreases nw - j,
{
    let sums = window_sums(bases, scalars, c, nw);
    let n = bases.len();
    if j == nw {
        let y = shifted_scalars(scalars, j * c);
        assert(y.len() == n);
        assert forall|i: int| 0 <= i < n implies y[i] == 0 by {
            assert(j * c == c * nw) by (nonlinear_arith) requires j == nw;
            vstd::arithmetic::div_mod::lemma_basic_div(scalars[i] as int, pow2(j * c) as int);
        }
        lemma_msm_zero(bases, y, n);
        lemma_smul_identity::<G>(pow2(c));
    } else {
        lemma_horner(bases, scalars, c, nw, j + 1);
        lemma_window_split(bases, scalars, c, j);
        let m1 = msm(bases, shifted_scalars(scalars, (j + 1) * c));
        let w = window_sum(bases, scalars, j * c, c);
        assert(sums[j as int] == w);
        assert(shifted_scalars(scalars, (j + 1) * c).len() == n);
        assert(window_digits(scalars, j * c, c).len() == n);
        lemma_msm_valid(bases, shifted_scalars(scalars, (j + 1) * c), n);
        lemma_msm_valid(bases, window_digits(scalars, j * c, c), n);
        lemma_smul_valid(pow2(c), m1);
        G::lemma_plus_valid(smul(pow2(c), m1), w);
        lemma_double_times(smul(pow2(c), m1).plus(w), c);
        G::lemma_plus_comm(smul(pow2(c), m1), w);
    }
}

/// Pippenger's recombination is the multi-scalar product, for every window
/// width `c` whose `nw` windows cover the scalars' bits.
pub proof fn lemma_windowed_msm<G: CurveGroup>(bases: Seq<G>, scalars: Seq<nat>, c: nat, nw: nat)
    requires
        bases.len() == scalars.len(),
        all_valid(bases),
        1 <= nw,
        forall|i: int| 0 <= i < scalars.len() ==> scalars[i] < pow2(c * nw),
    ensures
        windowed_msm(bases, scalars, c, nw) == msm(bases, scalars),
{
    let sums = window_sums(bases, scalars, c, nw);
    lemma_horner(bases, scalars, c, nw, 1);
    lemma_window_split(bases, scalars, c, 0);
    assert(sums[0] == window_sum(bases, scalars, 0, c));
    let x = shifted_scalars(scalars, 0);
    assert forall|i: int| 0 <= i < scalars.len() implies x[i] == scalars[i] by {
        assert(pow2(0) == 1);
    }
    lemma_msm_ext(bases, x, scalars, bases.len());
}

/// The window width does not change the result of the windowed method: any
/// two widths whose windows cover the scalars' bits give the same point.
pub proof fn lemma_window_width_invariant<G: CurveGroup>(
    bases: Seq<G>,
    scalars: Seq<nat>,
    c1: nat,
    nw1: nat,
    c2: nat,
    nw2: nat,
)
    requires
        bases.len() == scalars.len(),
        all_valid(bases),
        1 <= nw1,
        1 <= nw2,
        forall|i: int| 0 <= i < scalars.len() ==> scalars[i] < pow2(c1 * nw1),
        forall|i: int| 0 <= i < scalars.len() ==> scalars[i] < pow2(c2 * nw2),
    ensures
        windowed_msm(bases, scalars, c1, nw1) == windowed_msm(bases, scalars, c2, nw2),
{
    lemma_windowed_msm(bases, scalars, c1, nw1);
    lemma_windowed_msm(bases, scalars, c2, nw2);
}

} // verus!
