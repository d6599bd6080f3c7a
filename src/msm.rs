use vstd::prelude::*;
use crate::group::{CurveGroup, all_valid, smul, msm, msm_prefix, pow2, scalars_nat, lemma_pow2_agrees};
use crate::algebra::{
    double_times, lemma_identity_left, lemma_msm_add, lemma_msm_ext, lemma_msm_valid,
    lemma_pow2_mono, lemma_pow2_positive, lemma_smul_add, lemma_smul_distrib, lemma_smul_identity,
    lemma_smul_valid,
};
use crate::bucket::{reduce_buckets, bucket_fold, is_ceil_log2, log2};
use crate::scalar::ScalarRepr;
use crate::error::EngineError;
use crate::window::{digit, horner, lemma_windowed_msm, recombine, window_digits, window_sum, window_sums, windowed_msm};

verus! {

/// The widest window the windowed method uses: `2^30 - 1` buckets.
pub const MAX_WINDOW_BITS: u32 = crate::scalar::MAX_DIGIT_BITS;

/// The buckets from `k` up, summed from the top down.
pub open spec fn suffix_sum<G: CurveGroup>(bk: Seq<G>, k: nat) -> G
    decreases bk.len() - k,
{
    if k >= bk.len() {
        G::identity()
    } else {
        suffix_sum(bk, k + 1).plus(bk[k as int])
    }
}

/// The right-to-left running-sum pass over the buckets from `k` up: the sum
/// of the running sums.
pub open spec fn running_sum_fold<G: CurveGroup>(bk: Seq<G>, k: nat) -> G
    decreases bk.len() - k,
{
    if k >= bk.len() {
        G::identity()
    } else {
        running_sum_fold(bk, k + 1).plus(suffix_sum(bk, k))
    }
}

/// Bucket `b` weighted by its digit `b + 1`, summed over the buckets from `k` up.
pub open spec fn weighted<G: CurveGroup>(bk: Seq<G>, k: nat) -> G
    decreases bk.len() - k,
{
    if k >= bk.len() {
        G::identity()
    } else {
        weighted(bk, k + 1).plus(smul(k + 1, bk[k as int]))
    }
}

/// The buckets after the first `n` elements.
pub open spec fn bucket_sums<G: CurveGroup>(elems: Seq<G>, assign: Seq<usize>, nb: nat, n: nat) -> Seq<G> {
    Seq::new(nb, |b: int| bucket_fold(elems, assign, b, n))
}

/// The digit that an assignment to one of `nb` buckets stands for: bucket
/// `b` holds digit `b + 1`, and an assignment out of range stands for 0.
pub open spec fn bucket_digits(assign: Seq<usize>, nb: nat) -> Seq<nat> {
    Seq::new(assign.len(), |i: int| if assign[i] < nb { (assign[i] + 1) as nat } else { 0 })
}

proof fn lemma_bucket_fold_valid<G: CurveGroup>(elems: Seq<G>, assign: Seq<usize>, b: int, n: nat)
    requires
        n <= elems.len(),
        n <= assign.len(),
        all_valid(elems),
    ensures
        bucket_fold(elems, assign, b, n).valid(),
    decreases n,
{
    if n == 0 {
        G::lemma_identity_valid();
    } else {
        lemma_bucket_fold_valid(elems, assign, b, (n - 1) as nat);
        G::lemma_plus_valid(bucket_fold(elems, assign, b, (n - 1) as nat), elems[n - 1]);
    }
}

proof fn lemma_suffix_valid<G: CurveGroup>(bk: Seq<G>, k: nat)
    requires
        all_valid(bk),
    ensures
        suffix_sum(bk, k).valid(),
        running_sum_fold(bk, k).valid(),
        weighted(bk, k).valid(),
    decreases bk.len() - k,
{
    G::lemma_identity_valid();
    if k < bk.len() {
        lemma_suffix_valid(bk, k + 1);
        G::lemma_plus_valid(suffix_sum(bk, k + 1), bk[k as int]);
        G::lemma_plus_valid(running_sum_fold(bk, k + 1), suffix_sum(bk, k));
        lemma_smul_valid(k + 1, bk[k as int]);
        G::lemma_plus_valid(weighted(bk, k + 1), smul(k + 1, bk[k as int]));
    }
}

/// The running-sum pass weights each bucket by its digit.
proof fn lemma_running_sum<G: CurveGroup>(bk: Seq<G>, k: nat)
    requires
        all_valid(bk),
    ensures
        running_sum_fold(bk, k).plus(smul(k, suffix_sum(bk, k))) == weighted(bk, k),
    decreases bk.len() - k,
{
    G::lemma_identity_valid();
    if k >= bk.len() {
        lemma_smul_identity::<G>(k);
        G::lemma_plus_identity(G::identity());
    } else {
        lemma_running_sum(bk, k + 1);
        lemma_suffix_valid(bk, k);
        lemma_suffix_valid(bk, k + 1);
        let r1 = running_sum_fold(bk, k + 1);
        let s0 = suffix_sum(bk, k);
        let s1 = suffix_sum(bk, k + 1);
        let x = bk[k as int];
        lemma_smul_valid(k, s0);
        G::lemma_plus_assoc(r1, s0, smul(k, s0));
        G::lemma_plus_comm(s0, smul(k, s0));
        lemma_smul_distrib(k + 1, s1, x);
        lemma_smul_valid(k + 1, s1);
        lemma_smul_valid(k + 1, x);
        G::lemma_plus_assoc(r1, smul(k + 1, s1), smul(k + 1, x));
    }
}

proof fn lemma_weighted_identity<G: CurveGroup>(bk: Seq<G>, k: nat)
    requires
        forall|b: int| 0 <= b < bk.len() ==> bk[b] == G::identity(),
    ensures
        weighted(bk, k) == G::identity(),
    decreases bk.len() - k,
{
    if k < bk.len() {
        lemma_weighted_identity(bk, k + 1);
        lemma_smul_identity::<G>(k + 1);
        G::lemma_identity_valid();
        G::lemma_plus_identity(G::identity());
    }
}

/// Adding element `n` to its bucket adds its weighted contribution.
proof fn lemma_weighted_step<G: CurveGroup>(elems: Seq<G>, assign: Seq<usize>, nb: nat, n: nat, k: nat)
    requires
        n < elems.len(),
        n < assign.len(),
        all_valid(elems),
    ensures
        weighted(bucket_sums(elems, assign, nb, n + 1), k) == if k <= assign[n as int] < nb {
            weighted(bucket_sums(elems, assign, nb, n), k).plus(smul((assign[n as int] + 1) as nat, elems[n as int]))
        } else {
            weighted(bucket_sums(elems, assign, nb, n), k)
        },
    decreases nb - k,
{
    let b1 = bucket_sums(elems, assign, nb, n + 1);
    let b0 = bucket_sums(elems, assign, nb, n);
    let a = assign[n as int];
    let e = elems[n as int];
    if k < nb {
        lemma_weighted_step(elems, assign, nb, n, k + 1);
        assert forall|b: int| 0 <= b < nb implies (#[trigger] b0[b]).valid() by {
            lemma_bucket_fold_valid(elems, assign, b, n);
        }
        lemma_suffix_valid(b0, k + 1);
        let w0 = weighted(b0, k + 1);
        let t = smul(k + 1, b0[k as int]);
        lemma_smul_valid(k + 1, b0[k as int]);
        lemma_smul_valid((a + 1) as nat, e);
        assert(b1[k as int] == if a == k { b0[k as int].plus(e) } else { b0[k as int] });
        if a == k {
            lemma_smul_distrib(k + 1, b0[k as int], e);
            G::lemma_plus_assoc(w0, t, smul(k + 1, e));
        } else if k + 1 <= a < nb {
            let x = smul((a + 1) as nat, e);
            G::lemma_plus_assoc(w0, x, t);
            G::lemma_plus_comm(x, t);
            G::lemma_plus_assoc(w0, t, x);
        }
    }
}

/// The weighted buckets are the multi-scalar product with the digits that
/// the assignments stand for.
proof fn lemma_weighted_msm<G: CurveGroup>(elems: Seq<G>, assign: Seq<usize>, nb: nat, n: nat)
    requires
        n <= elems.len(),
        n <= assign.len(),
        all_valid(elems),
    ensures
        weighted(bucket_sums(elems, assign, nb, n), 0) == msm_prefix(elems, bucket_digits(assign, nb), n),
    decreases n,
{
    if n == 0 {
        lemma_weighted_identity(bucket_sums(elems, assign, nb, 0), 0);
    } else {
        let n1 = (n - 1) as nat;
        lemma_weighted_msm(elems, assign, nb, n1);
        lemma_weighted_step(elems, assign, nb, n1, 0);
        let d = bucket_digits(assign, nb);
        lemma_msm_valid(elems, d, n1);
        if !(assign[n1 as int] < nb) {
            assert(d[n1 as int] == 0);
            G::lemma_plus_identity(msm_prefix(elems, d, n1));
        }
    }
}

/// The right-to-left running-sum pass: bucket `b` ends up counted `b + 1` times.
fn running_sum<G: CurveGroup>(bk: &Vec<G>) -> (r: G)
    requires
        all_valid(bk@),
    ensures
        r == running_sum_fold(bk@, 0),
        r.valid(),
{
    let mut res = G::zero();
    let mut running = G::zero();
    let mut k: usize = bk.len();
    proof {
        lemma_suffix_valid(bk@, k as nat);
    }
    while k > 0
        invariant
            k <= bk@.len(),
            all_valid(bk@),
            running == suffix_sum(bk@, k as nat),
            res == running_sum_fold(bk@, k as nat),
            running.valid(),
            res.valid(),
        decreases k,
    {
        k = k - 1;
        running = running.add(&bk[k]);
        proof {
            lemma_suffix_valid(bk@, k as nat);
        }
        res = res.add(&running);
    }
    res
}

} // verus!

verus! {

/// The sum of one window, with the batched bucket accumulator: each base is
/// assigned the bucket of its scalar's digit, digit 0 being skipped.
pub fn window_sum_batched<G: CurveGroup, S: ScalarRepr>(bases: &[G], scalars: &[S], w: u32, c: u32) -> (r: G)
    requires
        bases@.len() == scalars@.len(),
        all_valid(bases@),
        1 <= c <= MAX_WINDOW_BITS,
    ensures
        r == window_sum(bases@, scalars_nat(scalars@), w as nat, c as nat),
        r.valid(),
{
    let ghost sn = scalars_nat(scalars@);
    let pc = crate::scalar::pow2_u128(c);
    proof {
        lemma_pow2_mono(c as nat, MAX_WINDOW_BITS as nat);
        lemma_pow2_agrees(30);
        vstd::arithmetic::power2::lemma2_to64();
        lemma_pow2_positive(c as nat);
    }
    let n_buckets: usize = (pc - 1) as usize;
    let n = scalars.len();
    let mut assign: Vec<usize> = Vec::new();
    let mut elems: Vec<G> = Vec::new();
    let mut i: usize = 0;
    while i < n
        invariant
            i <= n == scalars@.len() == bases@.len(),
            sn == scalars_nat(scalars@),
            pc == pow2(c as nat),
            n_buckets + 1 == pc,
            1 <= c <= MAX_WINDOW_BITS,
            assign@.len() == i,
            elems@.len() == i,
            forall|j: int| 0 <= j < i ==> (#[trigger] elems@[j]) == bases@[j],
            n_buckets < 0x4000_0000,
            forall|j: int|
                0 <= j < i ==> #[trigger] assign@[j] == if digit(sn[j], w as nat, c as nat) == 0 {
                    usize::MAX
                } else {
                    (digit(sn[j], w as nat, c as nat) - 1) as usize
                },
        decreases n - i,
    {
        let d = scalars[i].window_digit(w, c);
        proof {
            lemma_pow2_positive(c as nat);
            vstd::arithmetic::div_mod::lemma_mod_bound((sn[i as int] / pow2(w as nat)) as int, pow2(c as nat) as int);
            assert(sn[i as int] == scalars@[i as int].value());
        }
        let a: usize = if d == 0 {
            usize::MAX
        } else {
            d - 1
        };
        assign.push(a);
        elems.push(bases[i]);
        proof {
            assert(sn[i as int] == scalars@[i as int].value());
        }
        i = i + 1;
    }
    let ghost e0 = elems@;
    assert(e0 == bases@);
    let bk = reduce_buckets(n_buckets, &mut elems, assign.as_slice());
    let r = running_sum(&bk);
    proof {
        let nb = n_buckets as nat;
        assert(bk@ == bucket_sums(bases@, assign@, nb, n as nat));
        lemma_running_sum(bk@, 0);
        lemma_suffix_valid(bk@, 0);
        G::lemma_plus_identity(r);
        lemma_weighted_msm(bases@, assign@, nb, n as nat);
        assert forall|j: int| 0 <= j < n implies #[trigger] bucket_digits(assign@, nb)[j] == window_digits(
            sn,
            w as nat,
            c as nat,
        )[j] by {
            assert(digit(sn[j], w as nat, c as nat) < pc);
        }
        lemma_msm_ext(bases@, bucket_digits(assign@, nb), window_digits(sn, w as nat, c as nat), n as nat);
    }
    r
}

/// The bucket of each scalar in one window of the direct method: the digit
/// less one, or out of range for a zero digit and for a scalar equal to one.
pub open spec fn direct_assign<S: ScalarRepr>(scalars: Seq<S>, w: nat, c: nat) -> Seq<usize> {
    Seq::new(
        scalars.len(),
        |i: int|
            if scalars[i].value() == 1 || digit(scalars[i].value(), w, c) == 0 {
                usize::MAX
            } else {
                (digit(scalars[i].value(), w, c) - 1) as usize
            },
    )
}

/// The scalars equal to one, counted in the lowest window only.
pub open spec fn unit_scalars<S: ScalarRepr>(scalars: Seq<S>, w: nat) -> Seq<nat> {
    Seq::new(scalars.len(), |i: int| if w == 0 && scalars[i].value() == 1 { 1nat } else { 0nat })
}

/// The sum of one window with one bucket per nonzero digit, filled by direct
/// additions. A scalar equal to one is added once, in the lowest window, and
/// never bucketed.
pub fn window_sum_direct<G: CurveGroup, S: ScalarRepr>(bases: &[G], scalars: &[S], w: u32, c: u32) -> (r: G)
    requires
        bases@.len() == scalars@.len(),
        all_valid(bases@),
        1 <= c <= MAX_WINDOW_BITS,
    ensures
        r == window_sum(bases@, scalars_nat(scalars@), w as nat, c as nat),
        r.valid(),
{
    let ghost sn = scalars_nat(scalars@);
    let pc = crate::scalar::pow2_u128(c);
    proof {
        lemma_pow2_mono(c as nat, MAX_WINDOW_BITS as nat);
        lemma_pow2_agrees(30);
        vstd::arithmetic::power2::lemma2_to64();
        lemma_pow2_positive(c as nat);
        lemma_pow2_positive(w as nat);
        G::lemma_identity_valid();
    }
    let n_buckets: usize = (pc - 1) as usize;
    let n = scalars.len();
    let ghost nb = n_buckets as nat;
    let ghost assign = direct_assign(scalars@, w as nat, c as nat);
    let ghost ones = unit_scalars(scalars@, w as nat);
    let mut buckets: Vec<G> = Vec::new();
    let mut b: usize = 0;
    while b < n_buckets
        invariant
            b <= n_buckets,
            buckets@.len() == b,
            forall|k: int| 0 <= k < b ==> #[trigger] buckets@[k] == G::identity(),
        decreases n_buckets - b,
    {
        buckets.push(G::zero());
        b = b + 1;
    }
    let mut res_one = G::zero();
    let mut i: usize = 0;
    while i < n
        invariant
            i <= n == scalars@.len() == bases@.len(),
            sn == scalars_nat(scalars@),
            all_valid(bases@),
            pc == pow2(c as nat),
            n_buckets + 1 == pc,
            nb == n_buckets,
            1 <= c <= MAX_WINDOW_BITS,
            assign == direct_assign(scalars@, w as nat, c as nat),
            ones == unit_scalars(scalars@, w as nat),
            assign.len() == n,
            ones.len() == n,
            buckets@.len() == n_buckets,
            forall|k: int| 0 <= k < n_buckets ==> #[trigger] buckets@[k] == bucket_fold(bases@, assign, k, i as nat),
            res_one == msm_prefix(bases@, ones, i as nat),
            n_buckets < 0x4000_0000,
        decreases n - i,
    {
        proof {
            assert forall|k: int| 0 <= k < n_buckets implies (#[trigger] buckets@[k]).valid() by {
                lemma_bucket_fold_valid(bases@, assign, k, i as nat);
            }
            lemma_msm_valid(bases@, ones, i as nat);
            lemma_smul_valid(ones[i as int], bases@[i as int]);
            G::lemma_plus_identity(res_one);
            lemma_identity_left(bases@[i as int]);
            assert(smul(0, bases@[i as int]) == G::identity());
            assert(sn[i as int] == scalars@[i as int].value());
        }
        let ghost ai = assign[i as int];
        let ghost old_b = buckets@;
        let s = scalars[i];
        if s.is_one() {
            if w == 0 {
                res_one = res_one.add(&bases[i]);
            }
            proof {
                assert(ai == usize::MAX);
            }
        } else {
            let d = s.window_digit(w, c);
            proof {
                lemma_pow2_positive(c as nat);
                vstd::arithmetic::div_mod::lemma_mod_bound((sn[i as int] / pow2(w as nat)) as int, pow2(c as nat) as int);
            }
            if d != 0 {
                let x = buckets[d - 1].add(&bases[i]);
                buckets.set(d - 1, x);
                proof {
                    assert(ai == d - 1);
                }
            } else {
                proof {
                    assert(ai == usize::MAX);
                }
            }
        }
        proof {
            assert forall|k: int| 0 <= k < n_buckets implies #[trigger] buckets@[k] == bucket_fold(
                bases@,
                assign,
                k,
                (i + 1) as nat,
            ) by {
                assert(old_b[k] == bucket_fold(bases@, assign, k, i as nat));
                assert(bucket_fold(bases@, assign, k, (i + 1) as nat) == if assign[i as int] == k {
                    bucket_fold(bases@, assign, k, i as nat).plus(bases@[i as int])
                } else {
                    bucket_fold(bases@, assign, k, i as nat)
                });
            }
        }
        i = i + 1;
    }
    proof {
        assert forall|k: int| 0 <= k < n_buckets implies (#[trigger] buckets@[k]).valid() by {
            lemma_bucket_fold_valid(bases@, assign, k, n as nat);
        }
    }
    let window_part = running_sum(&buckets);
    proof {
        assert(buckets@ == bucket_sums(bases@, assign, nb, n as nat));
        lemma_running_sum(buckets@, 0);
        lemma_suffix_valid(buckets@, 0);
        G::lemma_plus_identity(window_part);
        lemma_weighted_msm(bases@, assign, nb, n as nat);
        lemma_msm_valid(bases@, ones, n as nat);
        let bd = bucket_digits(assign, nb);
        let wd = window_digits(sn, w as nat, c as nat);
        assert forall|k: int| 0 <= k < n implies wd[k] == ones[k] + bd[k] by {
            assert(sn[k] == scalars@[k].value());
            lemma_pow2_positive(c as nat);
            let dk = digit(sn[k], w as nat, c as nat);
            assert(dk < pow2(c as nat));
            assert(wd[k] == dk);
            assert(bd[k] == if assign[k] < nb { (assign[k] + 1) as nat } else { 0 });
            if scalars@[k].value() != 1 {
                assert(ones[k] == 0);
                if dk == 0 {
                    assert(assign[k] == usize::MAX);
                    assert(bd[k] == 0);
                } else {
                    assert(assign[k] == (dk - 1) as usize);
                    assert(bd[k] == dk);
                }
            }
            if scalars@[k].value() == 1 {
                lemma_pow2_positive(w as nat);
                if w == 0 {
                    assert(pow2(c as nat) >= 2) by {
                        lemma_pow2_positive((c - 1) as nat);
                    }
                    assert(pow2(0) == 1);
                    assert(pow2(w as nat) == 1);
                    assert(sn[k] / pow2(w as nat) == 1) by (nonlinear_arith)
                        requires
                            sn[k] == 1,
                            pow2(w as nat) == 1,
                    ;
                    vstd::arithmetic::div_mod::lemma_small_mod(1, pow2(c as nat));
                    assert(wd[k] == 1);
                    assert(ones[k] == 1);
                } else {
                    assert(pow2(w as nat) >= 2) by {
                        lemma_pow2_positive((w - 1) as nat);
                    }
                    vstd::arithmetic::div_mod::lemma_basic_div(1, pow2(w as nat) as int);
                    vstd::arithmetic::div_mod::lemma_small_mod(0, pow2(c as nat));
                    assert(wd[k] == 0);
                }
                assert(assign[k] == usize::MAX);
                assert(bd[k] == 0);
            }
        }
        lemma_msm_add(bases@, ones, bd, wd, n as nat);
        G::lemma_plus_valid(res_one, window_part);
    }
    res_one.add(&window_part)
}

} // verus!

verus! {

/// How many windows of `c` bits cover `num_bits` bits; at least one.
pub open spec fn num_windows(num_bits: nat, c: nat) -> nat {
    if num_bits == 0 {
        1
    } else {
        ((num_bits + c - 1) / c as int) as nat
    }
}

/// Pippenger's method with window width `c`: the window sums, from the
/// lowest, recombined from the highest down by doubling `c` times between
/// windows.
fn windowed<G: CurveGroup, S: ScalarRepr>(bases: &[G], scalars: &[S], num_bits: u32, c: u32, batched: bool) -> (r: G)
    requires
        bases@.len() == scalars@.len(),
        all_valid(bases@),
        1 <= c <= MAX_WINDOW_BITS,
    ensures
        r == windowed_msm(bases@, scalars_nat(scalars@), c as nat, num_windows(num_bits as nat, c as nat)),
        r.valid(),
{
    let ghost sn = scalars_nat(scalars@);
    let nw = window_count(num_bits, c);
    let ghost sums_spec = window_sums(bases@, sn, c as nat, nw as nat);
    let mut sums: Vec<G> = Vec::new();
    let mut j: u32 = 0;
    while j < nw
        invariant
            j <= nw,
            nw as nat == num_windows(num_bits as nat, c as nat),
            (nw - 1) * c <= num_bits,
            sums_spec == window_sums(bases@, sn, c as nat, nw as nat),
            sn == scalars_nat(scalars@),
            bases@.len() == scalars@.len(),
            all_valid(bases@),
            1 <= c <= MAX_WINDOW_BITS,
            sums@.len() == j,
            forall|k: int| 0 <= k < j ==> #[trigger] sums@[k] == sums_spec[k],
            all_valid(sums@),
        decreases nw - j,
    {
        assert(j * c <= num_bits) by (nonlinear_arith)
            requires
                j < nw,
                (nw - 1) * c <= num_bits,
                c >= 1,
        ;
        let w: u32 = j * c;
        let s = if batched {
            window_sum_batched(bases, scalars, w, c)
        } else {
            window_sum_direct(bases, scalars, w, c)
        };
        sums.push(s);
        j = j + 1;
    }
    assert(sums@ == sums_spec);
    recombine_windows(&sums, c)
}

/// Pippenger recombination: from the highest window down, add the window's
/// sum and double `c` times; the lowest window's sum is added last.
pub fn recombine_windows<G: CurveGroup>(sums: &Vec<G>, c: u32) -> (r: G)
    requires
        all_valid(sums@),
    ensures
        r == recombine(sums@, c as nat),
        r.valid(),
{
    proof {
        G::lemma_identity_valid();
    }
    if sums.len() == 0 {
        return G::zero();
    }
    let nw = sums.len();
    let mut total = G::zero();
    let mut j: usize = nw;
    while j > 1
        invariant
            1 <= j <= nw,
            sums@.len() == nw,
            all_valid(sums@),
            total == horner(sums@, c as nat, j as nat),
            total.valid(),
        decreases j,
    {
        j = j - 1;
        total = total.add(&sums[j]);
        proof {
            G::lemma_plus_valid(horner(sums@, c as nat, (j + 1) as nat), sums@[j as int]);
        }
        let ghost x = total;
        let mut k: u32 = 0;
        while k < c
            invariant
                k <= c,
                x.valid(),
                total == double_times(x, k as nat),
                total.valid(),
            decreases c - k,
        {
            proof {
                G::lemma_plus_valid(total, total);
            }
            total = total.double();
            k = k + 1;
        }
    }
    proof {
        G::lemma_plus_valid(sums@[0], total);
    }
    sums[0].add(&total)
}

/// How many windows of `c` bits cover `num_bits` bits; at least one.
pub fn window_count(num_bits: u32, c: u32) -> (nw: u32)
    requires
        c >= 1,
    ensures
        nw == num_windows(num_bits as nat, c as nat),
        nw >= 1,
        (nw - 1) * c <= num_bits,
{
    let nw: u32 = if num_bits == 0 {
        1
    } else {
        let q: u64 = (num_bits as u64 + c as u64 - 1) / c as u64;
        assert(q <= num_bits) by (nonlinear_arith)
            requires
                q == (num_bits + c - 1) / c as int,
                c >= 1,
                num_bits >= 1,
        {
            assert(num_bits + c - 1 <= num_bits * c);
        }
        q as u32
    };
    assert(nw >= 1 && (nw - 1) * c <= num_bits) by (nonlinear_arith)
        requires
            nw == if num_bits == 0 { 1 } else { (num_bits + c - 1) / c as int },
            c >= 1,
    ;
    nw
}

/// The windows of `num_bits` bits cover every scalar below `2^num_bits`.
proof fn lemma_windows_cover(scalars: Seq<nat>, num_bits: nat, c: nat)
    requires
        c >= 1,
        forall|i: int| 0 <= i < scalars.len() ==> scalars[i] < pow2(num_bits),
    ensures
        num_windows(num_bits, c) >= 1,
        forall|i: int| 0 <= i < scalars.len() ==> scalars[i] < pow2(c * num_windows(num_bits, c)),
{
    let nw = num_windows(num_bits, c);
    assert(nw >= 1) by (nonlinear_arith)
        requires
            nw == if num_bits == 0 { 1 } else { ((num_bits + c - 1) / c as int) as nat },
            c >= 1,
    ;
    assert(c * nw >= num_bits) by (nonlinear_arith)
        requires
            nw == if num_bits == 0 { 1 } else { ((num_bits + c - 1) / c as int) as nat },
            c >= 1,
    ;
    lemma_pow2_mono(num_bits, c * nw);
}

/// The width of a window for a batch of `n` scalars: `small` below 32
/// scalars, else about `ln(n) + 2` bits.
pub fn window_bits(n: usize, small: u32) -> (c: u32)
    requires
        1 <= small <= MAX_WINDOW_BITS,
    ensures
        1 <= c <= MAX_WINDOW_BITS,
        n < 32 ==> c == small,
        n >= 32 ==> exists|l: nat|
            #[trigger] is_ceil_log2(n as nat, l) && c == (if l * 69 / 100 + 2 > MAX_WINDOW_BITS {
                MAX_WINDOW_BITS as nat
            } else {
                l * 69 / 100 + 2
            }),
{
    if n < 32 {
        small
    } else {
        let l = log2(n);
        proof {
            assert(is_ceil_log2(n as nat, l as nat));
        }
        let c = (l as usize) * 69 / 100 + 2;
        if c > MAX_WINDOW_BITS as usize {
            MAX_WINDOW_BITS
        } else {
            c as u32
        }
    }
}

/// The natural logarithm of `a`, approximated without floating point as
/// `69 / 100` of its base-two logarithm (rounded up), rounded down.
pub fn ln_without_floats(a: usize) -> (r: usize)
    ensures
        r <= 44,
        exists|l: nat| #[trigger] is_ceil_log2(a as nat, l) && r == l * 69 / 100,
{
    let l = log2(a) as usize;
    assert(is_ceil_log2(a as nat, l as nat));
    l * 69 / 100
}

/// Multi-scalar multiplication.
pub struct VariableBaseMSM;

impl VariableBaseMSM {
    /// The sum of `scalars[i]` times `bases[i]`, by Pippenger's method with a
    /// bucket per nonzero digit; windows of 3 bits below 32 scalars, else
    /// about `ln(n) + 2` bits, over all bits of the scalar type.
    pub fn multi_scalar_mul<G: CurveGroup, S: ScalarRepr>(bases: &[G], scalars: &[S]) -> (res: Result<G, EngineError>)
        requires
            all_valid(bases@),
        ensures
            bases@.len() != scalars@.len() <==> res == Err::<G, EngineError>(EngineError::InputLengthMismatch),
            res matches Ok(r) ==> r == msm(bases@, scalars_nat(scalars@)) && r.valid(),
    {
        if bases.len() != scalars.len() {
            return Err(EngineError::InputLengthMismatch);
        }
        let c = window_bits(scalars.len(), 3);
        let bits = S::bits();
        let r = windowed(bases, scalars, bits, c, false);
        proof {
            let sn = scalars_nat(scalars@);
            assert forall|i: int| 0 <= i < sn.len() implies sn[i] < pow2(bits as nat) by {
                S::lemma_value_bound(scalars@[i]);
            }
            lemma_windows_cover(sn, bits as nat, c as nat);
            lemma_windowed_msm(bases@, sn, c as nat, num_windows(bits as nat, c as nat));
        }
        Ok(r)
    }

    /// The sum of `scalars[i]` times `bases[i]` for scalars of `num_bits`
    /// bits, by Pippenger's method whose buckets are reduced by the batched
    /// bucket accumulator; windows of 1 bit below 32 scalars, else about
    /// `ln(n) + 2` bits.
    pub fn multi_scalar_mul_batched<G: CurveGroup, S: ScalarRepr>(
        bases: &[G],
        scalars: &[S],
        num_bits: u32,
    ) -> (res: Result<G, EngineError>)
        requires
            all_valid(bases@),
            forall|i: int| 0 <= i < scalars@.len() ==> (#[trigger] scalars@[i]).value() < pow2(num_bits as nat),
        ensures
            bases@.len() != scalars@.len() <==> res == Err::<G, EngineError>(EngineError::InputLengthMismatch),
            res matches Ok(r) ==> r == msm(bases@, scalars_nat(scalars@)) && r.valid(),
    {
        if bases.len() != scalars.len() {
            return Err(EngineError::InputLengthMismatch);
        }
        let c = window_bits(scalars.len(), 1);
        let r = windowed(bases, scalars, num_bits, c, true);
        proof {
            let sn = scalars_nat(scalars@);
            assert forall|i: int| 0 <= i < sn.len() implies sn[i] < pow2(num_bits as nat) by {
                assert(sn[i] == scalars@[i].value());
            }
            lemma_windows_cover(sn, num_bits as nat, c as nat);
            lemma_windowed_msm(bases@, sn, c as nat, num_windows(num_bits as nat, c as nat));
        }
        Ok(r)
    }
}

} // verus!

verus! {

/// `scalar` times `base`, by double-and-add over the scalar's bits from the
/// highest down.
pub fn scalar_mul<G: CurveGroup, S: ScalarRepr>(base: &G, scalar: S) -> (r: G)
    requires
        base.valid(),
    ensures
        r == smul(scalar.value(), *base),
        r.valid(),
{
    let ghost v = scalar.value();
    let mut acc = G::zero();
    let mut k: u32 = S::bits();
    proof {
        S::lemma_value_bound(scalar);
        lemma_pow2_positive(k as nat);
        vstd::arithmetic::div_mod::lemma_basic_div(v as int, pow2(k as nat) as int);
        G::lemma_identity_valid();
    }
    while k > 0
        invariant
            v == scalar.value(),
            base.valid(),
            acc == smul(v / pow2(k as nat), *base),
            acc.valid(),
        decreases k,
    {
        k = k - 1;
        let ghost m = v / pow2((k + 1) as nat);
        let bit = scalar.window_digit(k, 1);
        proof {
            let q = v / pow2(k as nat);
            lemma_pow2_positive(k as nat);
            assert(pow2((k + 1) as nat) == pow2(k as nat) * 2);
            vstd::arithmetic::div_mod::lemma_div_denominator(v as int, pow2(k as nat) as int, 2);
            vstd::arithmetic::div_mod::lemma_fundamental_div_mod(q as int, 2);
            assert(pow2(0) == 1);
            assert(pow2(1) == 2);
            assert(bit == q % 2);
            lemma_smul_add(m, m, *base);
            lemma_smul_valid(m, *base);
            lemma_smul_valid(m + m, *base);
        }
        acc = acc.double();
        if bit == 1 {
            proof {
                G::lemma_plus_valid(acc, *base);
                assert(v / pow2(k as nat) == m + m + 1);
            }
            acc = acc.add(base);
        } else {
            proof {
                assert(v / pow2(k as nat) == m + m);
            }
        }
    }
    proof {
        assert(pow2(0) == 1);
        assert(v / pow2(0) == v) by (nonlinear_arith)
            requires
                pow2(0) == 1,
        ;
    }
    acc
}

/// The sum of `scalars[i]` times `bases[i]`, by one double-and-add per pair
/// and no bucketing: the reference the windowed methods agree with.
pub fn multi_scalar_mul_naive<G: CurveGroup, S: ScalarRepr>(bases: &[G], scalars: &[S]) -> (res: Result<G, EngineError>)
    requires
        all_valid(bases@),
    ensures
        bases@.len() != scalars@.len() <==> res == Err::<G, EngineError>(EngineError::InputLengthMismatch),
        res matches Ok(r) ==> r == msm(bases@, scalars_nat(scalars@)) && r.valid(),
{
    if bases.len() != scalars.len() {
        return Err(EngineError::InputLengthMismatch);
    }
    let ghost sn = scalars_nat(scalars@);
    let mut acc = G::zero();
    let mut i: usize = 0;
    proof {
        G::lemma_identity_valid();
    }
    while i < bases.len()
        invariant
            i <= bases@.len() == scalars@.len(),
            sn == scalars_nat(scalars@),
            all_valid(bases@),
            acc == msm_prefix(bases@, sn, i as nat),
            acc.valid(),
        decreases bases@.len() - i,
    {
        let p = scalar_mul(&bases[i], scalars[i]);
        proof {
            assert(sn[i as int] == scalars@[i as int].value());
            G::lemma_plus_valid(acc, p);
        }
        acc = acc.add(&p);
        i = i + 1;
    }
    Ok(acc)
}

} // verus!
