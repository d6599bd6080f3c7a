use msm_engine::group::CurveGroup;
use msm_engine::msm::VariableBaseMSM;
use msm_engine::residue::{Residue, GROUP_ORDER};
use msm_engine::error::EngineError;
use msm_engine::scheduler::{
    batch_scalar_multiply_heterogeneous, even_split, load_profile, measured_fractions, partition_static,
    update_profile, Consumer, PartitionStrategy, SchedulerConfig, ThroughputProfile, WorkQueue,
    FRACTION_SCALE,
};

struct Lcg(u64);

impl Lcg {
    fn next(&mut self) -> u64 {
        self.0 = self.0.wrapping_mul(6364136223846793005).wrapping_add(1442695040888963407);
        self.0
    }
}

fn config(strategy: PartitionStrategy) -> SchedulerConfig {
    SchedulerConfig { cuda_group_size: 128, job_chunk_size: 64, cpu_chunk_size: 10, partition_strategy: strategy }
}

#[test]
fn cpu_only_batch_matches_windowed_msm() {
    let mut rng = Lcg(11);
    let n = 300usize;
    let bases: Vec<Residue> = (0..n).map(|_| Residue::new(rng.next())).collect();
    let scalars: Vec<u64> = (0..n).map(|_| rng.next()).collect();
    for strategy in [PartitionStrategy::Static, PartitionStrategy::Dynamic] {
        let out = batch_scalar_multiply_heterogeneous(&bases, &scalars, &config(strategy)).unwrap();
        assert_eq!(out.len(), n);
        let mut sum = Residue::zero();
        for (i, p) in out.iter().enumerate() {
            let expected = ((bases[i].value as u128 * (scalars[i] % GROUP_ORDER) as u128) % GROUP_ORDER as u128) as u64;
            assert_eq!(p.value, expected);
            sum = sum.add(p);
        }
        assert_eq!(sum, VariableBaseMSM::multi_scalar_mul(&bases, &scalars).unwrap());
    }
}

#[test]
fn mismatched_lengths_are_refused() {
    let bases = vec![Residue::new(1), Residue::new(2)];
    let scalars = vec![3u64];
    for strategy in [PartitionStrategy::Static, PartitionStrategy::Dynamic] {
        assert_eq!(
            batch_scalar_multiply_heterogeneous(&bases, &scalars, &config(strategy)).unwrap_err(),
            EngineError::InputLengthMismatch
        );
    }
}

#[test]
fn empty_batch() {
    let out = batch_scalar_multiply_heterogeneous::<Residue, u64>(&[], &[], &config(PartitionStrategy::Dynamic)).unwrap();
    assert!(out.is_empty());
}

#[test]
fn missing_or_corrupt_profile_resets_to_even_split() {
    let p = load_profile(None, 2).unwrap();
    assert_eq!(p.fractions, vec![FRACTION_SCALE / 3; 2]);
    assert_eq!(p.samples, 0);
    let corrupt = ThroughputProfile { fractions: vec![FRACTION_SCALE + 1, 5], samples: 4 };
    let p = load_profile(Some(corrupt), 2).unwrap();
    assert_eq!(p.fractions, vec![FRACTION_SCALE / 3; 2]);
    let empty = ThroughputProfile { fractions: vec![], samples: 9 };
    assert_eq!(load_profile(Some(empty), 1).unwrap().fractions, vec![FRACTION_SCALE / 2]);
}

#[test]
fn stale_profile_is_refused() {
    let stale = ThroughputProfile { fractions: vec![100, 200, 300], samples: 2 };
    assert_eq!(load_profile(Some(stale), 2).unwrap_err(), EngineError::InputLengthMismatch);
    let good = ThroughputProfile { fractions: vec![100, 200], samples: 2 };
    let p = load_profile(Some(good), 2).unwrap();
    assert_eq!((p.fractions, p.samples), (vec![100, 200], 2));
}

#[test]
fn static_partition_exact() {
    let p = even_split(2);
    // A third of 100 is 33.33, rounded to 33 for each device.
    assert_eq!(partition_static(&p, 100), (vec![33, 33], 34));
    let p = ThroughputProfile { fractions: vec![FRACTION_SCALE / 2, FRACTION_SCALE / 2 + 1, 7], samples: 1 };
    // The second share is cut to what the first left.
    assert_eq!(partition_static(&p, 3), (vec![2, 1, 0], 0));
    assert_eq!(partition_static(&even_split(0), 17), (vec![], 17));
}

#[test]
fn measured_fractions_exact() {
    // CPU: 100 elements in 10; device: 300 elements in 10. The device did 3/4.
    let f = measured_fractions(&[300], &[10], 100, 10);
    assert_eq!(f, vec![750_000_000]);
    // Nothing done anywhere: no share.
    assert_eq!(measured_fractions(&[0], &[0], 0, 0), vec![0]);
}

#[test]
fn profile_settles_over_identical_runs() {
    let mut p = even_split(1);
    let target = 600_000_000u64;
    let mut last_distance = u64::MAX;
    for _ in 0..50 {
        update_profile(&mut p, &vec![target]);
        let distance = p.fractions[0].abs_diff(target);
        assert!(distance <= last_distance);
        last_distance = distance;
    }
    // The first sample replaces the even split outright.
    assert_eq!(p.fractions, vec![target]);
    assert_eq!(p.samples, 50);

    // Alternating samples: the average moves less and less.
    let mut p = ThroughputProfile { fractions: vec![500_000_000], samples: 1 };
    let mut steps = vec![];
    for i in 0..20 {
        let sample = if i % 2 == 0 { 900_000_000 } else { 100_000_000 };
        let before = p.fractions[0];
        update_profile(&mut p, &vec![sample]);
        steps.push(p.fractions[0].abs_diff(before));
    }
    for w in steps.windows(2) {
        assert!(w[1] <= w[0] + 1);
    }
    assert!(steps[19] * 5 < steps[0]);
}

#[test]
fn update_profile_blends_by_sample_count() {
    let mut p = ThroughputProfile { fractions: vec![100, 1000], samples: 3 };
    update_profile(&mut p, &vec![500, 0]);
    assert_eq!(p.fractions, vec![(500 + 3 * 100) / 4, (3 * 1000) / 4]);
    assert_eq!(p.samples, 4);
    let mut q = ThroughputProfile { fractions: vec![], samples: 0 };
    update_profile(&mut q, &vec![42]);
    assert_eq!((q.fractions, q.samples), (vec![42], 1));
}

#[test]
fn work_queue_leaves_the_last_job_to_the_cpu() {
    let mut q = WorkQueue::new(10, 4);
    assert_eq!(q.take(Consumer::Device), Some((0, 4)));
    assert_eq!(q.take(Consumer::Device), Some((4, 8)));
    assert_eq!(q.take(Consumer::Device), None);
    assert!(!q.is_empty());
    assert_eq!(q.take(Consumer::Cpu), Some((8, 10)));
    assert!(q.is_empty());
    assert_eq!(q.take(Consumer::Cpu), None);
    let mut q = WorkQueue::new(8, 4);
    assert_eq!(q.take(Consumer::Cpu), Some((0, 4)));
    assert_eq!(q.take(Consumer::Device), None);
    assert_eq!(q.take(Consumer::Cpu), Some((4, 8)));
}

#[test]
fn fractions_never_sum_above_one() {
    let mut rng = Lcg(23);
    for _ in 0..50 {
        let k = (rng.next() % 5) as usize;
        let n_gpus: Vec<usize> = (0..k).map(|_| (rng.next() % 1_000_000) as usize).collect();
        let times: Vec<u64> = (0..k).map(|_| rng.next() % 10_000).collect();
        let f = measured_fractions(&n_gpus, &times, (rng.next() % 1_000_000) as usize, rng.next() % 10_000);
        assert!(f.iter().sum::<u64>() <= FRACTION_SCALE);
        let mut p = even_split(k);
        update_profile(&mut p, &f);
        update_profile(&mut p, &f);
        assert!(p.fractions.iter().sum::<u64>() <= FRACTION_SCALE);
    }
}
