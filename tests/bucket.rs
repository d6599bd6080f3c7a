use msm_engine::bucket::{batch_bucketed_add, batch_bucketed_add_old, batch_bucketed_add_split};
use msm_engine::error::EngineError;
use msm_engine::group::CurveGroup;
use msm_engine::residue::{Residue, GROUP_ORDER};

struct Lcg(u64);

impl Lcg {
    fn next(&mut self) -> u64 {
        self.0 = self.0.wrapping_mul(6364136223846793005).wrapping_add(1442695040888963407);
        self.0 >> 11
    }
}

fn naive(buckets: usize, elems: &[Residue], assign: &[usize]) -> Vec<Residue> {
    let mut res = vec![Residue::zero(); buckets];
    for (i, &a) in assign.iter().enumerate() {
        if a < buckets {
            res[a] = res[a].add(&elems[i]);
        }
    }
    res
}

fn residues(v: &[u64]) -> Vec<Residue> {
    v.iter().map(|&x| Residue::new(x)).collect()
}

#[test]
fn five_elements_four_buckets() {
    let (a, b, c, d, e) = (11u64, 22u64, 33u64, 44u64, 55u64);
    let elems = residues(&[a, b, c, d, e]);
    let assign = [0usize, 1, 0, 2, 5];
    let expected = residues(&[a + c, b, d, 0]);
    let mut scratch = elems.clone();
    assert_eq!(batch_bucketed_add(4, &mut scratch, &assign).unwrap(), expected);
    let mut scratch = elems.clone();
    assert_eq!(batch_bucketed_add_old(4, &mut scratch, &assign).unwrap(), expected);
    assert_eq!(batch_bucketed_add_split(4, &elems, &assign, 1).unwrap(), expected);
}

#[test]
fn random_assignments_match_naive_fold() {
    let mut rng = Lcg(7);
    for &(buckets, n) in &[(1usize, 1usize), (1, 100), (3, 50), (16, 1000), (255, 4000), (1000, 300), (7, 0)] {
        let elems: Vec<Residue> = (0..n).map(|_| Residue::new(rng.next())).collect();
        let assign: Vec<usize> = (0..n).map(|_| (rng.next() as usize) % buckets).collect();
        let expected = naive(buckets, &elems, &assign);
        let mut scratch = elems.clone();
        assert_eq!(batch_bucketed_add(buckets, &mut scratch, &assign).unwrap(), expected);
        let mut scratch = elems.clone();
        assert_eq!(batch_bucketed_add_old(buckets, &mut scratch, &assign).unwrap(), expected);
        assert_eq!(batch_bucketed_add_split(buckets, &elems, &assign, 3).unwrap(), expected);
    }
}

#[test]
fn out_of_range_assignments_are_dropped() {
    let elems = residues(&[1, 2, 3, 4]);
    let assign = [9usize, 9, 9, 1];
    let mut scratch = elems.clone();
    assert_eq!(batch_bucketed_add(2, &mut scratch, &assign).unwrap(), residues(&[0, 4]));
    let mut scratch = elems.clone();
    assert_eq!(batch_bucketed_add(0, &mut scratch, &assign).unwrap(), Vec::<Residue>::new());
}

#[test]
fn one_deep_bucket_wraps_around_the_order() {
    let n = 5000usize;
    let elems = vec![Residue::new(GROUP_ORDER - 1); n];
    let assign = vec![0usize; n];
    let mut scratch = elems.clone();
    let r = batch_bucketed_add(1, &mut scratch, &assign).unwrap();
    // 5000 copies of -1.
    assert_eq!(r, vec![Residue::new(GROUP_ORDER - 5000)]);
    assert_eq!(batch_bucketed_add_split(1, &elems, &assign, 0).unwrap(), r);
}

#[test]
fn split_matches_across_split_sizes() {
    let mut rng = Lcg(99);
    let buckets = 100usize;
    let elems: Vec<Residue> = (0..777).map(|_| Residue::new(rng.next())).collect();
    let assign: Vec<usize> = (0..777).map(|_| (rng.next() as usize) % 130).collect();
    let expected = naive(buckets, &elems, &assign);
    for bits in 0..8u32 {
        assert_eq!(batch_bucketed_add_split(buckets, &elems, &assign, bits).unwrap(), expected);
    }
}

#[test]
fn skewed_buckets_spill_out_of_their_slots() {
    let mut rng = Lcg(31);
    let buckets = 100usize;
    let n = 2000usize;
    let elems: Vec<Residue> = (0..n).map(|_| Residue::new(rng.next())).collect();
    // Nine in ten elements go to bucket 0, far beyond its slot.
    let assign: Vec<usize> =
        (0..n).map(|i| if i % 10 == 0 { (rng.next() as usize) % buckets } else { 0 }).collect();
    let expected = naive(buckets, &elems, &assign);
    let mut scratch = elems.clone();
    assert_eq!(batch_bucketed_add(buckets, &mut scratch, &assign).unwrap(), expected);
    let mut scratch = elems.clone();
    assert_eq!(batch_bucketed_add_old(buckets, &mut scratch, &assign).unwrap(), expected);
}

#[test]
fn mismatched_lengths_are_refused_untouched() {
    let elems = residues(&[1, 2, 3]);
    let assign = [0usize, 1];
    let mut scratch = elems.clone();
    assert_eq!(batch_bucketed_add(2, &mut scratch, &assign), Err(EngineError::InputLengthMismatch));
    assert_eq!(scratch, elems);
    assert_eq!(batch_bucketed_add_old(2, &mut scratch, &assign), Err(EngineError::InputLengthMismatch));
    assert_eq!(scratch, elems);
    assert_eq!(batch_bucketed_add_split(2, &elems, &assign, 1), Err(EngineError::InputLengthMismatch));
}

#[test]
fn ignored_elements_are_left_as_they_are() {
    let elems = residues(&[5, 6, 7, 8, 9, 10]);
    let assign = [0usize, 7, 0, 0, 9, 0];
    let mut scratch = elems.clone();
    let r = batch_bucketed_add(1, &mut scratch, &assign).unwrap();
    assert_eq!(r, residues(&[5 + 7 + 8 + 10]));
    assert_eq!(scratch[1], elems[1]);
    assert_eq!(scratch[4], elems[4]);
}

#[test]
fn wide_split_sizes() {
    let mut rng = Lcg(5);
    let elems: Vec<Residue> = (0..200).map(|_| Residue::new(rng.next())).collect();
    let assign: Vec<usize> = (0..200).map(|_| (rng.next() as usize) % 40).collect();
    let expected = naive(40, &elems, &assign);
    for bits in [20u32, 31, 40, 63] {
        assert_eq!(batch_bucketed_add_split(40, &elems, &assign, bits).unwrap(), expected);
    }
}
