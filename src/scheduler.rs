use vstd::prelude::*;
use crate::group::{CurveGroup, all_valid, smul, sum_seq, msm, msm_prefix, scalars_nat};
use crate::msm::scalar_mul;
use crate::scalar::ScalarRepr;
use crate::error::EngineError;

verus! {

/// The fixed-point unit of a throughput fraction: a fraction `f` stands for
/// `f / FRACTION_SCALE` of the total throughput.
pub const FRACTION_SCALE: u64 = 1_000_000_000;

/// Throughput is measured in elements per `THROUGHPUT_UNIT` time units.
pub const THROUGHPUT_UNIT: u128 = 1_000_000;

/// The measured share of the total throughput of each device, as a running
/// average over `samples` runs.
#[derive(Debug)]
pub struct ThroughputProfile {
    pub fractions: Vec<u64>,
    pub samples: u64,
}

impl ThroughputProfile {
    /// Every fraction is at most one whole.
    pub open spec fn wf(&self) -> bool {
        forall|d: int| 0 <= d < self.fractions@.len() ==> #[trigger] self.fractions@[d] <= FRACTION_SCALE
    }
}

/// How a heterogeneous batch is divided between devices and the CPU.
#[derive(Clone, Copy, Debug, PartialEq, Eq, Structural)]
pub enum PartitionStrategy {
    /// A share for each participant, sized by the throughput profile.
    Static,
    /// A shared queue of fixed-size jobs that the participants drain.
    Dynamic,
}

/// The sizes that steer a heterogeneous batch.
#[derive(Clone, Copy, Debug, PartialEq, Eq, Structural)]
pub struct SchedulerConfig {
    /// Threads per block of a device kernel.
    pub cuda_group_size: usize,
    /// Elements per job of the shared queue.
    pub job_chunk_size: usize,
    /// Elements per CPU sub-batch.
    pub cpu_chunk_size: usize,
    pub partition_strategy: PartitionStrategy,
}

/// The even split: every device and the CPU get the same fraction.
pub open spec fn even_fraction(n_devices: nat) -> nat {
    FRACTION_SCALE as nat / (n_devices + 1)
}

/// A profile with no samples that splits the work evenly between `n_devices`
/// devices and the CPU.
pub fn even_split(n_devices: usize) -> (p: ThroughputProfile)
    ensures
        p.samples == 0,
        p.fractions@.len() == n_devices,
        forall|d: int| 0 <= d < n_devices ==> #[trigger] p.fractions@[d] == even_fraction(n_devices as nat),
        p.wf(),
{
    let f: u64 = ((FRACTION_SCALE as u128) / (n_devices as u128 + 1)) as u64;
    let mut fractions: Vec<u64> = Vec::new();
    let mut d: usize = 0;
    while d < n_devices
        invariant
            d <= n_devices,
            f == even_fraction(n_devices as nat),
            fractions@.len() == d,
            forall|e: int| 0 <= e < d ==> #[trigger] fractions@[e] == f,
        decreases n_devices - d,
    {
        fractions.push(f);
        d = d + 1;
    }
    ThroughputProfile { fractions, samples: 0 }
}

/// The profile to use for `n_devices` devices, given what a cache held: the
/// cached profile when it is sound and recorded for as many devices; the even
/// split when nothing usable was cached (none, empty, or a fraction above one);
/// an error when a sound profile was recorded for another number of devices.
pub fn load_profile(cached: Option<ThroughputProfile>, n_devices: usize) -> (r: Result<ThroughputProfile, EngineError>)
    ensures
        match cached {
            Some(p) if p.fractions@.len() > 0 && p.wf() => if p.fractions@.len() == n_devices {
                r matches Ok(q) && q.fractions@ == p.fractions@ && q.samples == p.samples
            } else {
                r == Err::<ThroughputProfile, EngineError>(EngineError::InputLengthMismatch)
            },
            _ => r matches Ok(q) && q.samples == 0 && q.fractions@.len() == n_devices && forall|d: int|
                0 <= d < n_devices ==> #[trigger] q.fractions@[d] == even_fraction(n_devices as nat),
        },
{
    match cached {
        Some(p) => {
            if p.fractions.len() > 0 && fractions_sound(&p.fractions) {
                if p.fractions.len() == n_devices {
                    Ok(p)
                } else {
                    Err(EngineError::InputLengthMismatch)
                }
            } else {
                Ok(even_split(n_devices))
            }
        },
        None => Ok(even_split(n_devices)),
    }
}

/// Whether every fraction is at most one whole.
fn fractions_sound(f: &Vec<u64>) -> (b: bool)
    ensures
        b == (forall|d: int| 0 <= d < f@.len() ==> #[trigger] f@[d] <= FRACTION_SCALE),
{
    let mut d: usize = 0;
    while d < f.len()
        invariant
            d <= f@.len(),
            forall|e: int| 0 <= e < d ==> #[trigger] f@[e] <= FRACTION_SCALE,
        decreases f@.len() - d,
    {
        if f[d] > FRACTION_SCALE {
            return false;
        }
        d = d + 1;
    }
    true
}

/// The sum of a sequence of fractions.
pub open spec fn sum_u64(s: Seq<u64>) -> nat
    decreases s.len(),
{
    if s.len() == 0 {
        0
    } else {
        sum_u64(s.drop_last()) + s.last() as nat
    }
}

/// `fraction` of `n` elements, rounded to the nearest.
pub open spec fn rounded_share(fraction: nat, n: nat) -> nat {
    (fraction * n + FRACTION_SCALE as nat / 2) / FRACTION_SCALE as nat
}

/// The sum of a sequence of counts.
pub open spec fn sum_nat(s: Seq<nat>) -> nat
    decreases s.len(),
{
    if s.len() == 0 {
        0
    } else {
        sum_nat(s.drop_last()) + s.last()
    }
}

/// The shares of the first `d` devices: each its rounded fraction of `n`,
/// cut to what the devices before it left.
pub open spec fn device_shares(fractions: Seq<u64>, n: nat, d: nat) -> Seq<nat>
    decreases d,
{
    if d == 0 {
        Seq::empty()
    } else {
        let prev = device_shares(fractions, n, (d - 1) as nat);
        let left = n - sum_nat(prev);
        let want = rounded_share(fractions[d - 1] as nat, n);
        prev.push(if want <= left { want } else { left as nat })
    }
}

proof fn lemma_device_shares_bounded(fractions: Seq<u64>, n: nat, d: nat)
    ensures
        sum_nat(device_shares(fractions, n, d)) <= n,
        device_shares(fractions, n, d).len() == d,
    decreases d,
{
    if d > 0 {
        lemma_device_shares_bounded(fractions, n, (d - 1) as nat);
        let s = device_shares(fractions, n, d);
        assert(s.drop_last() == device_shares(fractions, n, (d - 1) as nat));
    }
}

/// The static partition of `n` elements: a share for each device of the
/// profile, and the rest for the CPU.
pub fn partition_static(profile: &ThroughputProfile, n: usize) -> (r: (Vec<usize>, usize))
    requires
        profile.wf(),
    ensures
        r.0@.len() == profile.fractions@.len(),
        forall|d: int| 0 <= d < r.0@.len() ==> #[trigger] r.0@[d] as nat == device_shares(
            profile.fractions@,
            n as nat,
            profile.fractions@.len(),
        )[d],
        r.1 as nat + sum_nat(device_shares(profile.fractions@, n as nat, profile.fractions@.len())) == n,
{
    let ghost fr = profile.fractions@;
    let mut shares: Vec<usize> = Vec::new();
    let mut left: usize = n;
    let mut d: usize = 0;
    while d < profile.fractions.len()
        invariant
            d <= fr.len(),
            fr == profile.fractions@,
            profile.wf(),
            shares@.len() == d,
            forall|e: int| 0 <= e < d ==> #[trigger] shares@[e] as nat == device_shares(fr, n as nat, d as nat)[e],
            left as nat + sum_nat(device_shares(fr, n as nat, d as nat)) == n,
        decreases fr.len() - d,
    {
        let f = profile.fractions[d];
        proof {
            assert(f <= FRACTION_SCALE);
            assert((f as u128) * (n as u128) <= 1_000_000_000u128 * 0xffff_ffff_ffff_ffffu128) by (nonlinear_arith)
                requires
                    f <= 1_000_000_000,
                    n <= 0xffff_ffff_ffff_ffff,
            ;
            assert(((f as u128) * (n as u128) + 500_000_000) / 1_000_000_000 <= n) by (nonlinear_arith)
                requires
                    f <= 1_000_000_000,
            ;
        }
        let want: usize = (((f as u128) * (n as u128) + (FRACTION_SCALE / 2) as u128) / FRACTION_SCALE as u128) as usize;
        let take: usize = if want <= left {
            want
        } else {
            left
        };
        shares.push(take);
        left = left - take;
        proof {
            lemma_device_shares_bounded(fr, n as nat, d as nat);
            lemma_device_shares_bounded(fr, n as nat, (d + 1) as nat);
            let s = device_shares(fr, n as nat, (d + 1) as nat);
            assert(s.drop_last() == device_shares(fr, n as nat, d as nat));
            assert forall|e: int| 0 <= e < d + 1 implies #[trigger] shares@[e] as nat == s[e] by {
                if e < d {
                    assert(s[e] == device_shares(fr, n as nat, d as nat)[e]);
                }
            }
        }
        d = d + 1;
    }
    (shares, left)
}

/// Blending a new sample into a running average over `samples` samples.
pub open spec fn blend(old: nat, new: nat, samples: nat) -> nat {
    (new + samples * old) / (samples + 1)
}

/// Each participant's measured share of the total throughput, given how
/// many elements it handled and in what time (a time of 0 counts as 1).
pub open spec fn throughput(n: nat, time: nat) -> nat {
    ((n * THROUGHPUT_UNIT) as int / (if time == 0 { 1int } else { time as int })) as nat
}

/// The sum of the throughputs of the first `d` devices.
pub open spec fn device_throughput_sum(n_gpus: Seq<usize>, times: Seq<u64>, d: nat) -> nat
    decreases d,
{
    if d == 0 {
        0
    } else {
        device_throughput_sum(n_gpus, times, (d - 1) as nat) + throughput(n_gpus[d - 1] as nat, times[d - 1] as nat)
    }
}

proof fn lemma_throughput_bound(n: nat, time: nat)
    requires
        n <= 0xffff_ffff_ffff_ffff,
    ensures
        throughput(n, time) <= 0xffff_ffff_ffff_ffff * THROUGHPUT_UNIT,
{
    let t: int = if time == 0 { 1int } else { time as int };
    let x: int = (n * THROUGHPUT_UNIT) as int;
    assert(x / t <= x) by (nonlinear_arith)
        requires
            t >= 1,
            x >= 0,
    ;
    assert(n * THROUGHPUT_UNIT <= 0xffff_ffff_ffff_ffff * THROUGHPUT_UNIT) by (nonlinear_arith)
        requires
            n <= 0xffff_ffff_ffff_ffff,
    ;
}

fn throughput_exec(n: usize, time: u64) -> (t: u128)
    ensures
        t == throughput(n as nat, time as nat),
        t <= 0xffff_ffff_ffff_ffff * THROUGHPUT_UNIT,
{
    proof {
        lemma_throughput_bound(n as nat, time as nat);
        assert((n as u128) * THROUGHPUT_UNIT <= 0xffff_ffff_ffff_ffff * THROUGHPUT_UNIT) by (nonlinear_arith)
            requires
                n <= 0xffff_ffff_ffff_ffff,
        ;
    }
    let t: u64 = if time == 0 {
        1
    } else {
        time
    };
    (n as u128) * THROUGHPUT_UNIT / (t as u128)
}

/// The fraction of the total throughput that device `d` achieved.
pub open spec fn measured_fraction(n_gpus: Seq<usize>, times: Seq<u64>, n_cpu: nat, time_cpu: nat, d: int) -> nat {
    let total = throughput(n_cpu, time_cpu) + device_throughput_sum(n_gpus, times, n_gpus.len());
    if total == 0 {
        0
    } else {
        throughput(n_gpus[d] as nat, times[d] as nat) * FRACTION_SCALE as nat / total
    }
}

proof fn lemma_device_sum_bound(n_gpus: Seq<usize>, times: Seq<u64>, d: nat)
    requires
        d <= n_gpus.len(),
        d <= times.len(),
    ensures
        device_throughput_sum(n_gpus, times, d) <= d * (0xffff_ffff_ffff_ffff * THROUGHPUT_UNIT),
        forall|e: int| 0 <= e < d ==> throughput(#[trigger] n_gpus[e] as nat, times[e] as nat)
            <= device_throughput_sum(n_gpus, times, d),
    decreases d,
{
    if d > 0 {
        lemma_device_sum_bound(n_gpus, times, (d - 1) as nat);
        lemma_throughput_bound(n_gpus[d - 1] as nat, times[d - 1] as nat);
        assert((d - 1) * (0xffff_ffff_ffff_ffff * THROUGHPUT_UNIT) + 0xffff_ffff_ffff_ffff * THROUGHPUT_UNIT
            == d * (0xffff_ffff_ffff_ffff * THROUGHPUT_UNIT)) by (nonlinear_arith);
    }
}

/// The fractions of the total throughput that the devices achieved in one
/// run, from how many elements each participant handled and its time.
pub fn measured_fractions(n_gpus: &[usize], times_gpu: &[u64], n_cpu: usize, time_cpu: u64) -> (r: Vec<u64>)
    requires
        n_gpus@.len() == times_gpu@.len(),
        n_gpus@.len() < 0x1_0000_0000,
    ensures
        r@.len() == n_gpus@.len(),
        forall|d: int| 0 <= d < r@.len() ==> #[trigger] r@[d] as nat == measured_fraction(
            n_gpus@,
            times_gpu@,
            n_cpu as nat,
            time_cpu as nat,
            d,
        ),
        forall|d: int| 0 <= d < r@.len() ==> #[trigger] r@[d] <= FRACTION_SCALE,
        sum_u64(r@) <= FRACTION_SCALE,
{
    let k = n_gpus.len();
    let mut total: u128 = throughput_exec(n_cpu, time_cpu);
    let mut d: usize = 0;
    proof {
        lemma_device_sum_bound(n_gpus@, times_gpu@, k as nat);
    }
    while d < k
        invariant
            d <= k == n_gpus@.len() == times_gpu@.len(),
            k < 0x1_0000_0000,
            total == throughput(n_cpu as nat, time_cpu as nat) + device_throughput_sum(n_gpus@, times_gpu@, d as nat),
            throughput(n_cpu as nat, time_cpu as nat) <= 0xffff_ffff_ffff_ffff * THROUGHPUT_UNIT,
        decreases k - d,
    {
        proof {
            lemma_device_sum_bound(n_gpus@, times_gpu@, (d + 1) as nat);
            assert((d + 1) * (0xffff_ffff_ffff_ffff * THROUGHPUT_UNIT) <= 0x1_0000_0000 * (0xffff_ffff_ffff_ffff * THROUGHPUT_UNIT)) by (nonlinear_arith)
                requires
                    d + 1 <= 0x1_0000_0000,
            ;
        }
        total = total + throughput_exec(n_gpus[d], times_gpu[d]);
        d = d + 1;
    }
    let mut r: Vec<u64> = Vec::new();
    let mut d: usize = 0;
    while d < k
        invariant
            d <= k == n_gpus@.len() == times_gpu@.len(),
            total == throughput(n_cpu as nat, time_cpu as nat) + device_throughput_sum(n_gpus@, times_gpu@, k as nat),
            forall|e: int| 0 <= e < k ==> throughput(#[trigger] n_gpus@[e] as nat, times_gpu@[e] as nat)
                <= device_throughput_sum(n_gpus@, times_gpu@, k as nat),
            r@.len() == d,
            forall|e: int| 0 <= e < d ==> #[trigger] r@[e] as nat == measured_fraction(
                n_gpus@,
                times_gpu@,
                n_cpu as nat,
                time_cpu as nat,
                e,
            ),
            forall|e: int| 0 <= e < d ==> #[trigger] r@[e] <= FRACTION_SCALE,
            total == 0 ==> sum_u64(r@) == 0,
            sum_u64(r@) * total <= FRACTION_SCALE * device_throughput_sum(n_gpus@, times_gpu@, d as nat),
        decreases k - d,
    {
        let t = throughput_exec(n_gpus[d], times_gpu[d]);
        let ghost before = r@;
        let f: u64 = if total == 0 {
            0
        } else {
            proof {
                assert(t <= total);
                assert(t * (FRACTION_SCALE as u128) <= 0xffff_ffff_ffff_ffff * THROUGHPUT_UNIT * 1_000_000_000) by (nonlinear_arith)
                    requires
                        t <= 0xffff_ffff_ffff_ffff * THROUGHPUT_UNIT,
                ;
                let ti = t as int;
                let tot = total as int;
                assert((ti * 1_000_000_000) / tot <= 1_000_000_000) by (nonlinear_arith)
                    requires
                        0 <= ti <= tot,
                        tot > 0,
                ;
            }
            (t * (FRACTION_SCALE as u128) / total) as u64
        };
        r.push(f);
        proof {
            assert(r@.drop_last() == before);
            let st = sum_u64(before);
            let ds = device_throughput_sum(n_gpus@, times_gpu@, d as nat);
            let ti = t as int;
            let tot = total as int;
            if total > 0 {
                vstd::arithmetic::div_mod::lemma_fundamental_div_mod(ti * 1_000_000_000, tot);
                vstd::arithmetic::div_mod::lemma_mod_bound(ti * 1_000_000_000, tot);
                assert(f * tot <= ti * 1_000_000_000);
            }
            assert((st + f) * tot <= 1_000_000_000 * (ds + ti)) by (nonlinear_arith)
                requires
                    st * tot <= 1_000_000_000 * ds,
                    f * tot <= ti * 1_000_000_000,
            ;
        }
        d = d + 1;
    }
    proof {
        let st = sum_u64(r@);
        let ds = device_throughput_sum(n_gpus@, times_gpu@, k as nat);
        let tot = total as int;
        if total > 0 {
            assert(st <= 1_000_000_000) by (nonlinear_arith)
                requires
                    st * tot <= 1_000_000_000 * ds,
                    ds <= tot,
                    tot > 0,
            ;
        }
    }
    r
}

/// Blends one run's measured fractions into the profile: each fraction
/// becomes the running average weighted by the sample count, and the count
/// grows by one. An empty profile takes the measurement as it is.
pub fn update_profile(profile: &mut ThroughputProfile, measured: &Vec<u64>)
    requires
        old(profile).fractions@.len() == 0 || old(profile).fractions@.len() == measured@.len(),
        old(profile).wf(),
        forall|d: int| 0 <= d < measured@.len() ==> #[trigger] measured@[d] <= FRACTION_SCALE,
    ensures
        final(profile).wf(),
        final(profile).samples == if old(profile).samples < u64::MAX {
            (old(profile).samples + 1) as u64
        } else {
            u64::MAX
        },
        final(profile).fractions@.len() == measured@.len(),
        old(profile).fractions@.len() == 0 ==> final(profile).fractions@ == measured@,
        old(profile).fractions@.len() > 0 ==> forall|d: int|
            0 <= d < measured@.len() ==> #[trigger] final(profile).fractions@[d] as nat == blend(
                old(profile).fractions@[d] as nat,
                measured@[d] as nat,
                old(profile).samples as nat,
            ),
        sum_u64(measured@) <= FRACTION_SCALE && (old(profile).fractions@.len() == 0 || sum_u64(
            old(profile).fractions@,
        ) <= FRACTION_SCALE) ==> sum_u64(final(profile).fractions@) <= FRACTION_SCALE,
{
    let s = profile.samples;
    if profile.fractions.len() == 0 {
        profile.fractions = measured.clone();
        proof {
            assert(profile.fractions@ == measured@);
        }
    } else {
        let mut blended: Vec<u64> = Vec::new();
        let mut d: usize = 0;
        proof {
            assert(sum_u64(measured@.subrange(0, 0)) == 0);
            assert(sum_u64(profile.fractions@.subrange(0, 0)) == 0);
            assert(sum_u64(blended@) == 0);
            assert(0 * (s + 1) == 0);
            assert(s * 0 == 0);
        }
        while d < measured.len()
            invariant
                d <= measured@.len() == profile.fractions@.len(),
                profile.wf(),
                s == profile.samples,
                forall|e: int| 0 <= e < measured@.len() ==> #[trigger] measured@[e] <= FRACTION_SCALE,
                blended@.len() == d,
                forall|e: int| 0 <= e < d ==> #[trigger] blended@[e] as nat == blend(
                    profile.fractions@[e] as nat,
                    measured@[e] as nat,
                    s as nat,
                ),
                forall|e: int| 0 <= e < d ==> #[trigger] blended@[e] <= FRACTION_SCALE,
                sum_u64(blended@) * (s + 1) <= sum_u64(measured@.subrange(0, d as int)) + s * sum_u64(
                    profile.fractions@.subrange(0, d as int),
                ),
            decreases measured@.len() - d,
        {
            let o = profile.fractions[d];
            let m = measured[d];
            let ghost before = blended@;
            proof {
                assert(o <= FRACTION_SCALE);
                assert((s as u128) * (o as u128) <= 0xffff_ffff_ffff_ffff * 1_000_000_000) by (nonlinear_arith)
                    requires
                        s <= 0xffff_ffff_ffff_ffff,
                        o <= 1_000_000_000,
                ;
                lemma_blend_between(o as nat, m as nat, s as nat);
            }
            let b = ((m as u128 + (s as u128) * (o as u128)) / (s as u128 + 1)) as u64;
            blended.push(b);
            proof {
                assert(blended@.drop_last() == before);
                assert(measured@.subrange(0, d + 1).drop_last() == measured@.subrange(0, d as int));
                assert(profile.fractions@.subrange(0, d + 1).drop_last() == profile.fractions@.subrange(0, d as int));
                let x = m + s * o;
                let s1 = s + 1;
                vstd::arithmetic::div_mod::lemma_fundamental_div_mod(x as int, s1 as int);
                vstd::arithmetic::div_mod::lemma_mod_bound(x as int, s1 as int);
                let sb = sum_u64(before);
                let sm = sum_u64(measured@.subrange(0, d as int));
                let so = sum_u64(profile.fractions@.subrange(0, d as int));
                assert(b * s1 <= x);
                assert((sb + b) * s1 <= (sm + m) + s * (so + o)) by (nonlinear_arith)
                    requires
                        sb * s1 <= sm + s * so,
                        b * s1 <= m + s * o,
                ;
            }
            d = d + 1;
        }
        proof {
            assert(measured@.subrange(0, measured@.len() as int) == measured@);
            assert(profile.fractions@.subrange(0, measured@.len() as int) == profile.fractions@);
            let sb = sum_u64(blended@);
            let sm = sum_u64(measured@);
            let so = sum_u64(profile.fractions@);
            if sm <= FRACTION_SCALE && so <= FRACTION_SCALE {
                assert(sb <= 1_000_000_000) by (nonlinear_arith)
                    requires
                        sb * (s + 1) <= sm + s * so,
                        sm <= 1_000_000_000,
                        so <= 1_000_000_000,
                        s >= 0,
                ;
            }
        }
        profile.fractions = blended;
    }
    profile.samples = if s < u64::MAX {
        s + 1
    } else {
        u64::MAX
    };
}

/// A blended fraction lies between the old average and the new sample.
pub proof fn lemma_blend_between(old: nat, new: nat, samples: nat)
    ensures
        old <= new ==> old <= blend(old, new, samples) <= new,
        new <= old ==> new <= blend(old, new, samples) <= old,
{
    let b: int = blend(old, new, samples) as int;
    let s1: int = samples as int + 1;
    let x: int = (new + samples * old) as int;
    let o: int = old as int;
    let w: int = new as int;
    vstd::arithmetic::div_mod::lemma_fundamental_div_mod(x, s1);
    vstd::arithmetic::div_mod::lemma_mod_bound(x, s1);
    let rem: int = x % s1;
    assert(b == x / s1);
    if old <= new {
        assert(o * s1 <= x <= w * s1) by (nonlinear_arith)
            requires
                o <= w,
                s1 == samples + 1,
                x == w + samples * o,
        ;
        assert(o <= b <= w) by (nonlinear_arith)
            requires
                o * s1 <= x <= w * s1,
                x == s1 * b + rem,
                0 <= rem < s1,
                s1 >= 1,
        ;
    } else {
        assert(w * s1 <= x <= o * s1) by (nonlinear_arith)
            requires
                w <= o,
                s1 == samples + 1,
                x == w + samples * o,
        ;
        assert(w <= b <= o) by (nonlinear_arith)
            requires
                w * s1 <= x <= o * s1,
                x == s1 * b + rem,
                0 <= rem < s1,
                s1 >= 1,
        ;
    }
}

/// The profile settles: blending a sample into an average over `samples`
/// samples moves the average towards the sample by at most a
/// `1 / (samples + 1)` part of their distance (up to one rounding unit per
/// sample), and never past it. Repeated runs that measure the same fraction
/// move the average less and less.
pub proof fn lemma_blend_step_shrinks(old: nat, new: nat, samples: nat)
    ensures
        old <= new ==> (samples + 1) * (blend(old, new, samples) - old) <= new - old,
        new <= old ==> (samples + 1) * (old - blend(old, new, samples)) <= (old - new) + samples,
        old <= new ==> blend(old, new, samples) <= new,
        new <= old ==> new <= blend(old, new, samples),
{
    lemma_blend_between(old, new, samples);
    let b: int = blend(old, new, samples) as int;
    let s1: int = samples as int + 1;
    let x: int = (new + samples * old) as int;
    vstd::arithmetic::div_mod::lemma_fundamental_div_mod(x, s1);
    vstd::arithmetic::div_mod::lemma_mod_bound(x, s1);
    let rem: int = x % s1;
    assert(b == x / s1);
    assert(s1 * (b - old) == new - old - rem) by (nonlinear_arith)
        requires
            x == s1 * b + rem,
            x == new + samples * old,
            s1 == samples + 1,
    ;
    assert((samples + 1) * (b - old) == s1 * (b - old));
    assert((samples + 1) * (old - b) == -(s1 * (b - old))) by (nonlinear_arith)
        requires
            s1 == samples + 1,
    ;
}

/// A consumer of the shared job queue.
#[derive(Clone, Copy, Debug, PartialEq, Eq, Structural)]
pub enum Consumer {
    Device,
    Cpu,
}

/// The shared queue of the dynamic strategy: the jobs `[next, next + job_size)`,
/// `[next + job_size, ...)`, ... up to `len`, handed out in order.
#[derive(Clone, Copy, Debug, PartialEq, Eq, Structural)]
pub struct WorkQueue {
    pub len: usize,
    pub job_size: usize,
    pub next: usize,
}

impl WorkQueue {
    pub open spec fn wf(&self) -> bool {
        &&& self.job_size > 0
        &&& self.next <= self.len
    }

    /// A queue of the jobs of `job_size` elements over `len` elements.
    pub fn new(len: usize, job_size: usize) -> (q: WorkQueue)
        requires
            job_size > 0,
        ensures
            q.wf(),
            q.len == len,
            q.job_size == job_size,
            q.next == 0,
    {
        WorkQueue { len, job_size, next: 0 }
    }

    /// Whether jobs remain.
    pub fn is_empty(&self) -> (b: bool)
        ensures
            b == (self.next >= self.len),
    {
        self.next >= self.len
    }

    /// Hands the next job to a consumer, as a range of elements. The CPU
    /// takes any job that remains. A device takes a job only while another
    /// remains after it, so that the last job is left to the CPU rather than
    /// waiting behind a device's latency.
    pub fn take(&mut self, who: Consumer) -> (r: Option<(usize, usize)>)
        requires
            old(self).wf(),
        ensures
            final(self).wf(),
            final(self).len == old(self).len,
            final(self).job_size == old(self).job_size,
            match who {
                Consumer::Cpu => if old(self).next < old(self).len {
                    let end = if old(self).len - old(self).next > old(self).job_size {
                        old(self).next + old(self).job_size
                    } else {
                        old(self).len as int
                    };
                    r == Some((old(self).next, end as usize)) && final(self).next == end
                } else {
                    r is None && final(self).next == old(self).next
                },
                Consumer::Device => if old(self).len - old(self).next > old(self).job_size {
                    r == Some((old(self).next, (old(self).next + old(self).job_size) as usize))
                        && final(self).next == old(self).next + old(self).job_size
                } else {
                    r is None && final(self).next == old(self).next
                },
            },
    {
        let left = self.len - self.next;
        match who {
            Consumer::Cpu => {
                if left == 0 {
                    None
                } else {
                    let start = self.next;
                    let end = if left > self.job_size {
                        start + self.job_size
                    } else {
                        self.len
                    };
                    self.next = end;
                    Some((start, end))
                }
            },
            Consumer::Device => {
                if left > self.job_size {
                    let start = self.next;
                    self.next = start + self.job_size;
                    Some((start, self.next))
                } else {
                    None
                }
            },
        }
    }
}

/// Multiplies each of `bases[start..end]` by its scalar, in place.
pub fn scalar_mul_range<G: CurveGroup, S: ScalarRepr>(bases: &mut Vec<G>, scalars: &[S], start: usize, end: usize)
    requires
        start <= end <= old(bases)@.len() == scalars@.len(),
        all_valid(old(bases)@),
    ensures
        final(bases)@.len() == old(bases)@.len(),
        all_valid(final(bases)@),
        forall|i: int| start <= i < end ==> #[trigger] final(bases)@[i] == smul(scalars@[i].value(), old(bases)@[i]),
        forall|i: int|
            0 <= i < old(bases)@.len() && !(start <= i < end) ==> #[trigger] final(bases)@[i] == old(bases)@[i],
{
    let ghost b0 = bases@;
    let mut i: usize = start;
    while i < end
        invariant
            start <= i <= end <= b0.len() == scalars@.len(),
            bases@.len() == b0.len(),
            all_valid(b0),
            all_valid(bases@),
            forall|j: int| start <= j < i ==> #[trigger] bases@[j] == smul(scalars@[j].value(), b0[j]),
            forall|j: int| 0 <= j < b0.len() && !(start <= j < i) ==> #[trigger] bases@[j] == b0[j],
        decreases end - i,
    {
        let p = scalar_mul(&bases[i], scalars[i]);
        bases.set(i, p);
        i = i + 1;
    }
}

/// Multiplies each of `bases[start..end]` by its scalar in sub-batches of
/// `chunk` elements.
fn scalar_mul_chunked<G: CurveGroup, S: ScalarRepr>(bases: &mut Vec<G>, scalars: &[S], start: usize, end: usize, chunk: usize)
    requires
        start <= end <= old(bases)@.len() == scalars@.len(),
        all_valid(old(bases)@),
        chunk > 0,
    ensures
        final(bases)@.len() == old(bases)@.len(),
        all_valid(final(bases)@),
        forall|i: int| start <= i < end ==> #[trigger] final(bases)@[i] == smul(scalars@[i].value(), old(bases)@[i]),
        forall|i: int|
            0 <= i < old(bases)@.len() && !(start <= i < end) ==> #[trigger] final(bases)@[i] == old(bases)@[i],
{
    let ghost b0 = bases@;
    let mut at: usize = start;
    while at < end
        invariant
            start <= at <= end <= b0.len() == scalars@.len(),
            chunk > 0,
            bases@.len() == b0.len(),
            all_valid(b0),
            all_valid(bases@),
            forall|j: int| start <= j < at ==> #[trigger] bases@[j] == smul(scalars@[j].value(), b0[j]),
            forall|j: int| 0 <= j < b0.len() && !(start <= j < at) ==> #[trigger] bases@[j] == b0[j],
        decreases end - at,
    {
        let stop = if end - at > chunk {
            at + chunk
        } else {
            end
        };
        scalar_mul_range(bases, scalars, at, stop);
        at = stop;
    }
}

/// Multiplies each base by its scalar, `result[i] = scalars[i] * bases[i]`,
/// with the work laid out by the configured strategy. Without devices every
/// share and every job runs on the CPU, in sub-batches of the CPU chunk size;
/// devices only change where the work runs, never the results.
pub fn batch_scalar_multiply_heterogeneous<G: CurveGroup, S: ScalarRepr>(
    bases: &[G],
    scalars: &[S],
    config: &SchedulerConfig,
) -> (r: Result<Vec<G>, EngineError>)
    requires
        all_valid(bases@),
        config.job_chunk_size > 0,
        config.cpu_chunk_size > 0,
    ensures
        bases@.len() != scalars@.len() <==> r == Err::<Vec<G>, EngineError>(EngineError::InputLengthMismatch),
        r matches Ok(v) ==> v@.len() == bases@.len() && all_valid(v@) && forall|i: int|
            0 <= i < v@.len() ==> #[trigger] v@[i] == smul(scalars@[i].value(), bases@[i]),
{
    if bases.len() != scalars.len() {
        return Err(EngineError::InputLengthMismatch);
    }
    let n = bases.len();
    let mut res: Vec<G> = Vec::new();
    let mut i: usize = 0;
    while i < n
        invariant
            i <= n == bases@.len(),
            res@.len() == i,
            forall|j: int| 0 <= j < i ==> #[trigger] res@[j] == bases@[j],
        decreases n - i,
    {
        res.push(bases[i]);
        i = i + 1;
    }
    assert(res@ == bases@);
    match config.partition_strategy {
        PartitionStrategy::Static => {
            let profile = even_split(0);
            let (_shares, n_cpu) = partition_static(&profile, n);
            proof {
                assert(device_shares(profile.fractions@, n as nat, 0) == Seq::<nat>::empty());
            }
            scalar_mul_chunked(&mut res, scalars, 0, n_cpu, config.cpu_chunk_size);
        },
        PartitionStrategy::Dynamic => {
            let mut queue = WorkQueue::new(n, config.job_chunk_size);
            let ghost b0 = res@;
            while !queue.is_empty()
                invariant
                    queue.wf(),
                    queue.len == n == b0.len() == scalars@.len(),
                    queue.job_size == config.job_chunk_size,
                    config.cpu_chunk_size > 0,
                    res@.len() == n,
                    all_valid(b0),
                    all_valid(res@),
                    forall|j: int| 0 <= j < queue.next ==> #[trigger] res@[j] == smul(scalars@[j].value(), b0[j]),
                    forall|j: int| queue.next <= j < n ==> #[trigger] res@[j] == b0[j],
                decreases n - queue.next,
            {
                match queue.take(Consumer::Cpu) {
                    Some((start, end)) => {
                        scalar_mul_chunked(&mut res, scalars, start, end, config.cpu_chunk_size);
                    },
                    None => {},
                }
            }
        },
    }
    Ok(res)
}

/// Multiplying each base by its scalar and summing the results gives the
/// multi-scalar product: the heterogeneous batch agrees with the windowed
/// method on the same input.
pub proof fn lemma_batch_sums_to_msm<G: CurveGroup, S: ScalarRepr>(bases: Seq<G>, scalars: Seq<S>, results: Seq<G>)
    requires
        bases.len() == scalars.len() == results.len(),
        forall|i: int| 0 <= i < results.len() ==> #[trigger] results[i] == smul(scalars[i].value(), bases[i]),
    ensures
        sum_seq(results) == msm(bases, scalars_nat(scalars)),
    decreases results.len(),
{
    let n = results.len();
    if n > 0 {
        let sn = scalars_nat(scalars);
        lemma_batch_sums_to_msm(bases.drop_last(), scalars.drop_last(), results.drop_last());
        let sn1 = scalars_nat(scalars.drop_last());
        assert forall|i: int| 0 <= i < (n - 1) as int implies sn1[i] == sn[i] by {}
        crate::algebra::lemma_msm_ext(bases.drop_last(), sn1, sn, (n - 1) as nat);
        lemma_msm_prefix_of_prefix(bases, sn, (n - 1) as nat);
    }
}

/// The product of the first `k` pairs does not look past them.
proof fn lemma_msm_prefix_of_prefix<G: CurveGroup>(bases: Seq<G>, scalars: Seq<nat>, k: nat)
    requires
        k < bases.len(),
    ensures
        msm_prefix(bases.drop_last(), scalars, k) == msm_prefix(bases, scalars, k),
    decreases k,
{
    if k > 0 {
        lemma_msm_prefix_of_prefix(bases, scalars, (k - 1) as nat);
    }
}

} // verus!
