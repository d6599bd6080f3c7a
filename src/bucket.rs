use vstd::prelude::*;
use crate::index::InvertedIndex;
use crate::error::EngineError;
use crate::group::{pow2, lemma_pow2_at_least_64, CurveGroup, all_valid, instr_disjoint, instr_in_bounds, sum_at};

verus! {

/// How many instructions one call of the batched addition receives.
pub const BATCH_ADD_SIZE: usize = 4096;

/// An inline slot holds this many times the average bucket load.
pub const RATIO_MULTIPLIER: usize = 2;

/// The positions below `k` that are assigned to bucket `b`, in increasing order.
pub open spec fn bucket_positions(assign: Seq<usize>, b: int, k: nat) -> Seq<usize>
    decreases k,
{
    if k == 0 {
        Seq::empty()
    } else {
        let prev = bucket_positions(assign, b, (k - 1) as nat);
        if assign[k - 1] == b {
            prev.push((k - 1) as usize)
        } else {
            prev
        }
    }
}

/// The naive fold of bucket `b`: from left to right over the first `k`
/// positions, the sum of the elements assigned to `b`.
pub open spec fn bucket_fold<G: CurveGroup>(elems: Seq<G>, assign: Seq<usize>, b: int, k: nat) -> G
    decreases k,
{
    if k == 0 {
        G::identity()
    } else {
        let acc = bucket_fold(elems, assign, b, (k - 1) as nat);
        if assign[k - 1] == b {
            acc.plus(elems[k - 1])
        } else {
            acc
        }
    }
}

/// The addition instructions of one tree level for one bucket: consecutive
/// positions are paired.
pub open spec fn pairs(l: Seq<usize>) -> Seq<(usize, usize)> {
    Seq::new(l.len() / 2, |j: int| (l[2 * j], l[2 * j + 1]))
}

/// The positions that survive one tree level: the first of each pair, and an
/// odd leftover.
pub open spec fn halve(l: Seq<usize>) -> Seq<usize> {
    Seq::new((l.len() + 1) / 2, |j: int| l[2 * j])
}

/// The instructions of one tree level over the first `b` buckets: every bucket
/// longer than `thr` contributes its pairs.
pub open spec fn level_instr(index: Seq<Seq<usize>>, thr: nat, b: nat) -> Seq<(usize, usize)>
    decreases b,
{
    if b == 0 {
        Seq::empty()
    } else {
        let prev = level_instr(index, thr, (b - 1) as nat);
        if index[b - 1].len() > thr {
            prev + pairs(index[b - 1])
        } else {
            prev
        }
    }
}

/// The inverted index after one tree level.
pub open spec fn next_level(index: Seq<Seq<usize>>, thr: nat) -> Seq<Seq<usize>> {
    Seq::new(
        index.len(),
        |b: int|
            if index[b].len() > thr {
                halve(index[b])
            } else {
                index[b]
            },
    )
}

/// Each bucket lists, in increasing order, positions below `n` that are
/// assigned to it.
pub open spec fn index_wf(index: Seq<Seq<usize>>, assign: Seq<usize>, n: nat) -> bool {
    &&& forall|b: int, i: int|
        0 <= b < index.len() && 0 <= i < index[b].len() ==> (#[trigger] index[b][i]) < n
            && assign[index[b][i] as int] == b
    &&& forall|b: int, i: int, j: int|
        0 <= b < index.len() && 0 <= i < j < index[b].len() ==> (#[trigger] index[b][i]) < (
        #[trigger] index[b][j])
}

pub proof fn lemma_bucket_positions_sum<G: CurveGroup>(elems: Seq<G>, assign: Seq<usize>, b: int, k: nat)
    requires
        k <= assign.len() <= usize::MAX,
    ensures
        sum_at(elems, bucket_positions(assign, b, k)) == bucket_fold(elems, assign, b, k),
        bucket_positions(assign, b, k).len() <= k,
        forall|i: int|
            0 <= i < bucket_positions(assign, b, k).len() ==> (#[trigger] bucket_positions(
                assign,
                b,
                k,
            )[i]) < k && assign[bucket_positions(assign, b, k)[i] as int] == b,
        forall|i: int, j: int|
            0 <= i < j < bucket_positions(assign, b, k).len() ==> (#[trigger] bucket_positions(
                assign,
                b,
                k,
            )[i]) < (#[trigger] bucket_positions(assign, b, k)[j]),
    decreases k,
{
    if k > 0 {
        lemma_bucket_positions_sum(elems, assign, b, (k - 1) as nat);
        let prev = bucket_positions(assign, b, (k - 1) as nat);
        if assign[k - 1] == b {
            assert(prev.push((k - 1) as usize).drop_last() == prev);
        }
    }
}

pub proof fn lemma_sum_at_valid<G: CurveGroup>(elems: Seq<G>, ps: Seq<usize>)
    requires
        forall|i: int| 0 <= i < ps.len() ==> (#[trigger] ps[i]) < elems.len(),
        all_valid(elems),
    ensures
        sum_at(elems, ps).valid(),
    decreases ps.len(),
{
    if ps.len() == 0 {
        G::lemma_identity_valid();
    } else {
        lemma_sum_at_valid(elems, ps.drop_last());
        G::lemma_plus_valid(sum_at(elems, ps.drop_last()), elems[ps.last() as int]);
    }
}

/// The sum over a list of positions only depends on the elements there.
pub proof fn lemma_sum_at_frame<G: CurveGroup>(e1: Seq<G>, e2: Seq<G>, ps: Seq<usize>)
    requires
        forall|i: int| 0 <= i < ps.len() ==> e1[#[trigger] ps[i] as int] == e2[ps[i] as int],
    ensures
        sum_at(e1, ps) == sum_at(e2, ps),
    decreases ps.len(),
{
    if ps.len() > 0 {
        lemma_sum_at_frame(e1, e2, ps.drop_last());
        assert(e1[ps.last() as int] == e2[ps[ps.len() - 1] as int]);
    }
}

/// One tree level keeps the sum of a bucket: the surviving positions hold the
/// sums of the pairs.
pub proof fn lemma_halve_sum<G: CurveGroup>(e_old: Seq<G>, e_new: Seq<G>, l: Seq<usize>)
    requires
        all_valid(e_old),
        forall|i: int| 0 <= i < l.len() ==> (#[trigger] l[i]) < e_old.len(),
        forall|j: int|
            0 <= j < l.len() / 2 ==> e_new[#[trigger] l[2 * j] as int] == e_old[l[2 * j] as int].plus(
                e_old[l[2 * j + 1] as int],
            ),
        l.len() % 2 == 1 ==> e_new[l[l.len() - 1] as int] == e_old[l[l.len() - 1] as int],
    ensures
        sum_at(e_new, halve(l)) == sum_at(e_old, l),
    decreases l.len(),
{
    let n = l.len();
    if n == 0 {
    } else if n % 2 == 1 {
        let l1 = l.drop_last();
        assert forall|j: int| 0 <= j < l1.len() / 2 implies e_new[#[trigger] l1[2 * j] as int]
            == e_old[l1[2 * j] as int].plus(e_old[l1[2 * j + 1] as int]) by {
            assert(l1[2 * j] == l[2 * j]);
        }
        lemma_halve_sum(e_old, e_new, l1);
        assert(halve(l).drop_last() == halve(l1));
        assert(halve(l).last() == l[n - 1]);
        assert(l.drop_last() == l1);
        assert(sum_at(e_new, halve(l)) == sum_at(e_new, halve(l1)).plus(e_new[l[n - 1] as int]));
        assert(sum_at(e_old, l) == sum_at(e_old, l1).plus(e_old[l[n - 1] as int]));
    } else {
        let l2 = l.subrange(0, n - 2);
        assert forall|j: int| 0 <= j < l2.len() / 2 implies e_new[#[trigger] l2[2 * j] as int]
            == e_old[l2[2 * j] as int].plus(e_old[l2[2 * j + 1] as int]) by {
            assert(l2[2 * j] == l[2 * j]);
        }
        lemma_halve_sum(e_old, e_new, l2);
        assert(halve(l).drop_last() == halve(l2));
        let j = (n - 2) / 2;
        assert(halve(l).last() == l[2 * j]);
        assert(e_new[l[2 * j] as int] == e_old[l[2 * j] as int].plus(e_old[l[2 * j + 1] as int]));
        assert(l.drop_last().drop_last() == l2);
        assert(l.drop_last().last() == l[n - 2]);
        lemma_sum_at_valid(e_old, l2);
        assert(sum_at(e_new, halve(l)) == sum_at(e_new, halve(l2)).plus(e_new[l[2 * j] as int]));
        assert(sum_at(e_old, l) == sum_at(e_old, l.drop_last()).plus(e_old[l[n - 1] as int]));
        assert(sum_at(e_old, l.drop_last()) == sum_at(e_old, l2).plus(e_old[l[n - 2] as int]));
        G::lemma_plus_assoc(sum_at(e_old, l2), e_old[l[n - 2] as int], e_old[l[n - 1] as int]);
    }
}

/// The pairs of a strictly increasing list touch disjoint positions.
pub proof fn lemma_pairs_disjoint(l: Seq<usize>)
    requires
        forall|i: int, j: int| 0 <= i < j < l.len() ==> (#[trigger] l[i]) < (#[trigger] l[j]),
    ensures
        instr_disjoint(pairs(l)),
{
    let p = pairs(l);
    assert forall|k: int| 0 <= k < p.len() implies (#[trigger] p[k]).0 != p[k].1 by {
        assert(l[2 * k] < l[2 * k + 1]);
    }
    assert forall|k: int, m: int|
        0 <= k < p.len() && 0 <= m < p.len() && k != m implies {
        &&& (#[trigger] p[k]).0 != (#[trigger] p[m]).0
        &&& p[k].0 != p[m].1
        &&& p[k].1 != p[m].1
    } by {
        if k < m {
            assert(l[2 * k] < l[2 * k + 1]);
            assert(l[2 * k + 1] < l[2 * m]);
            assert(l[2 * m] < l[2 * m + 1]);
        } else {
            assert(l[2 * m] < l[2 * m + 1]);
            assert(l[2 * m + 1] < l[2 * k]);
            assert(l[2 * k] < l[2 * k + 1]);
        }
    }
}

/// Facts on one tree level over the first `b` buckets: every instruction
/// names two positions of one bucket below `b`, the instructions are
/// disjoint, and they lie within bounds.
pub proof fn lemma_level_instr(
    index: Seq<Seq<usize>>,
    assign: Seq<usize>,
    n: nat,
    thr: nat,
    b: nat,
)
    requires
        index_wf(index, assign, n),
        b <= index.len(),
        n <= assign.len(),
    ensures
        instr_disjoint(level_instr(index, thr, b)),
        instr_in_bounds(level_instr(index, thr, b), n as int),
        forall|k: int|
            0 <= k < level_instr(index, thr, b).len() ==> assign[(#[trigger] level_instr(
                index,
                thr,
                b,
            )[k]).0 as int] < b && assign[level_instr(index, thr, b)[k].1 as int] < b
                && assign[level_instr(index, thr, b)[k].0 as int] == assign[level_instr(
                index,
                thr,
                b,
            )[k].1 as int],
    decreases b,
{
    if b > 0 {
        lemma_level_instr(index, assign, n, thr, (b - 1) as nat);
        let prev = level_instr(index, thr, (b - 1) as nat);
        let l = index[b - 1];
        if l.len() > thr {
            let p = pairs(l);
            assert forall|i: int, j: int| 0 <= i < j < l.len() implies (#[trigger] l[i]) < (
            #[trigger] l[j]) by {
                assert(index[b - 1][i] < index[b - 1][j]);
            }
            lemma_pairs_disjoint(l);
            let c = prev + p;
            assert forall|k: int| 0 <= k < p.len() implies assign[(#[trigger] p[k]).0 as int] == b
                - 1 && assign[p[k].1 as int] == b - 1 && p[k].0 < n && p[k].1 < n by {
                assert(index[b - 1][2 * k] == l[2 * k]);
                assert(index[b - 1][2 * k + 1] == l[2 * k + 1]);
            }
            assert forall|k: int| 0 <= k < c.len() implies (#[trigger] c[k]).0 != c[k].1 by {
                if k >= prev.len() {
                    assert(c[k] == p[k - prev.len()]);
                }
            }
            assert forall|k: int, m: int|
                0 <= k < c.len() && 0 <= m < c.len() && k != m implies {
                &&& (#[trigger] c[k]).0 != (#[trigger] c[m]).0
                &&& c[k].0 != c[m].1
                &&& c[k].1 != c[m].1
            } by {
                if k >= prev.len() {
                    assert(c[k] == p[k - prev.len()]);
                }
                if m >= prev.len() {
                    assert(c[m] == p[m - prev.len()]);
                }
            }
            assert forall|k: int| 0 <= k < c.len() implies assign[(#[trigger] c[k]).0 as int] < b
                && assign[c[k].1 as int] < b && assign[c[k].0 as int] == assign[c[k].1 as int]
                && c[k].0 < n && c[k].1 < n by {
                if k >= prev.len() {
                    assert(c[k] == p[k - prev.len()]);
                }
            }
        }
    }
}

/// Where the instructions of bucket `b` stand in one tree level, and that no
/// other instruction of the level writes into a position of bucket `b`.
pub proof fn lemma_level_instr_bucket(
    index: Seq<Seq<usize>>,
    assign: Seq<usize>,
    n: nat,
    thr: nat,
    m: nat,
    b: nat,
)
    requires
        index_wf(index, assign, n),
        b < m <= index.len(),
        n <= assign.len(),
    ensures
        index[b as int].len() > thr ==> forall|j: int|
            0 <= j < index[b as int].len() / 2 ==> level_instr(index, thr, m)[level_instr(
                index,
                thr,
                b,
            ).len() + j] == (#[trigger] pairs(index[b as int])[j]),
        index[b as int].len() > thr ==> level_instr(index, thr, b).len() + index[b as int].len() / 2
            <= level_instr(index, thr, m).len(),
        forall|k: int, i: int|
            0 <= k < level_instr(index, thr, m).len() && 0 <= i < index[b as int].len() && (
            #[trigger] level_instr(index, thr, m)[k]).0 == (#[trigger] index[b as int][i]) ==> index[b as int].len()
                > thr && i % 2 == 0 && i + 1 < index[b as int].len(),
    decreases m,
{
    lemma_level_instr(index, assign, n, thr, m);
    let lm = level_instr(index, thr, m);
    let prev = level_instr(index, thr, (m - 1) as nat);
    if m - 1 > b {
        lemma_level_instr_bucket(index, assign, n, thr, (m - 1) as nat, b);
        assert forall|k: int, i: int|
            0 <= k < lm.len() && 0 <= i < index[b as int].len() && (#[trigger] lm[k]).0 == (
            #[trigger] index[b as int][i]) implies index[b as int].len() > thr && i % 2 == 0 && i + 1 < index[b as int].len() by {
            if k < prev.len() {
                assert(lm[k] == prev[k]);
            } else {
                let l = index[m - 1];
                assert(lm[k] == pairs(l)[k - prev.len()]);
                assert(assign[lm[k].0 as int] == m - 1) by {
                    assert(l[2 * (k - prev.len())] == index[m - 1][2 * (k - prev.len())]);
                }
                assert(assign[index[b as int][i] as int] == b);
            }
        }
    } else {
        // m - 1 == b
        lemma_level_instr(index, assign, n, thr, b);
        let l = index[b as int];
        assert forall|k: int, i: int|
            0 <= k < lm.len() && 0 <= i < l.len() && (#[trigger] lm[k]).0 == (
            #[trigger] index[b as int][i]) implies l.len() > thr && i % 2 == 0 && i + 1 < l.len() by {
            if k < prev.len() {
                assert(lm[k] == prev[k]);
                assert(assign[index[b as int][i] as int] == b);
            } else {
                let j = k - prev.len();
                assert(lm[k] == pairs(l)[j]);
                assert(l[2 * j] == l[i]);
                if i < 2 * j {
                    assert(index[b as int][i] < index[b as int][2 * j]);
                } else if i > 2 * j {
                    assert(index[b as int][2 * j] < index[b as int][i]);
                }
            }
        }
    }
}

} // verus!

verus! {

fn build_index_direct(buckets: usize, assign: &[usize], cap: usize) -> (index: InvertedIndex)
    requires
        cap > 0,
        buckets * cap <= usize::MAX,
    ensures
        index.wf(),
        index.lists().len() == buckets,
        forall|b: int|
            0 <= b < buckets ==> (#[trigger] index.lists()[b]) == bucket_positions(assign@, b, assign@.len()),
{
    let mut index = InvertedIndex::new(buckets, cap);
    let mut p: usize = 0;
    while p < assign.len()
        invariant
            p <= assign@.len(),
            index.wf(),
            index.lists().len() == buckets,
            forall|c: int| 0 <= c < buckets ==> (#[trigger] index.lists()[c]) == bucket_positions(assign@, c, p as nat),
        decreases assign@.len() - p,
    {
        let bk = assign[p];
        if bk < buckets {
            proof {
                lemma_bucket_positions_len(assign@, bk as int, p as nat);
            }
            index.push(bk, p);
        }
        p = p + 1;
    }
    index
}

/// No more positions below `k` than `k`.
proof fn lemma_bucket_positions_len(assign: Seq<usize>, b: int, k: nat)
    requires
        k <= assign.len(),
    ensures
        bucket_positions(assign, b, k).len() <= k,
    decreases k,
{
    if k > 0 {
        lemma_bucket_positions_len(assign, b, (k - 1) as nat);
    }
}

/// The width of an inline slot: `want` when the flat array of `buckets`
/// slots fits in memory, else 1.
fn slot_capacity(buckets: usize, want: usize) -> (cap: usize)
    ensures
        cap > 0,
        buckets * cap <= usize::MAX,
{
    proof {
        assert((want as u128) * (buckets as u128) <= 0xffff_ffff_ffff_fffe_0000_0000_0000_0001) by (nonlinear_arith)
            requires
                want <= 0xffff_ffff_ffff_ffff,
                buckets <= 0xffff_ffff_ffff_ffff,
        ;
        assert(buckets * 1 == buckets);
    }
    if want > 0 && (want as u128) * (buckets as u128) <= usize::MAX as u128 {
        assert(buckets * want == (want as u128) * (buckets as u128)) by (nonlinear_arith);
        want
    } else {
        1
    }
}

} // verus!

verus! {

/// Runs one tree level: the instructions go to the batched addition in chunks
/// of `BATCH_ADD_SIZE`.
fn execute_level<G: CurveGroup>(elems: &mut Vec<G>, row: &Vec<(usize, usize)>)
    requires
        instr_disjoint(row@),
        instr_in_bounds(row@, old(elems)@.len() as int),
        all_valid(old(elems)@),
    ensures
        final(elems)@.len() == old(elems)@.len(),
        all_valid(final(elems)@),
        forall|k: int|
            0 <= k < row@.len() ==> final(elems)@[(#[trigger] row@[k]).0 as int]
                == old(elems)@[row@[k].0 as int].plus(old(elems)@[row@[k].1 as int]),
        forall|p: int|
            0 <= p < old(elems)@.len() && (forall|k: int|
                0 <= k < row@.len() ==> (#[trigger] row@[k]).0 != p) ==> final(elems)@[p]
                == old(elems)@[p],
{
    let ghost e0 = elems@;
    let mut done: usize = 0;
    while done < row.len()
        invariant
            done <= row@.len(),
            instr_disjoint(row@),
            instr_in_bounds(row@, e0.len() as int),
            elems@.len() == e0.len(),
            all_valid(e0),
            all_valid(elems@),
            forall|k: int|
                0 <= k < done ==> elems@[(#[trigger] row@[k]).0 as int] == e0[row@[k].0 as int].plus(
                    e0[row@[k].1 as int],
                ),
            forall|p: int|
                0 <= p < e0.len() && (forall|k: int| 0 <= k < done ==> (#[trigger] row@[k]).0 != p)
                    ==> elems@[p] == e0[p],
        decreases row@.len() - done,
    {
        let end: usize = if row.len() - done > BATCH_ADD_SIZE {
            done + BATCH_ADD_SIZE
        } else {
            row.len()
        };
        let chunk = vstd::slice::slice_subrange(row.as_slice(), done, end);
        let ghost before = elems@;
        assert(forall|i: int| 0 <= i < chunk@.len() ==> #[trigger] chunk@[i] == row@[done + i]);
        assert(instr_disjoint(chunk@)) by {
            assert forall|k: int, l: int|
                0 <= k < chunk@.len() && 0 <= l < chunk@.len() && k != l implies {
                &&& (#[trigger] chunk@[k]).0 != (#[trigger] chunk@[l]).0
                &&& chunk@[k].0 != chunk@[l].1
                &&& chunk@[k].1 != chunk@[l].1
            } by {
                assert(row@[done + k] == chunk@[k]);
                assert(row@[done + l] == chunk@[l]);
            }
            assert forall|k: int| 0 <= k < chunk@.len() implies (#[trigger] chunk@[k]).0 != chunk@[k].1 by {
                assert(row@[done + k] == chunk@[k]);
            }
        }
        assert(instr_in_bounds(chunk@, elems@.len() as int)) by {
            assert forall|k: int| 0 <= k < chunk@.len() implies (#[trigger] chunk@[k]).0 < elems@.len()
                && chunk@[k].1 < elems@.len() by {
                assert(row@[done + k] == chunk@[k]);
            }
        }
        G::batch_add_in_place(elems, chunk);
        assert forall|k: int| 0 <= k < end implies elems@[(#[trigger] row@[k]).0 as int] == e0[row@[k].0 as int].plus(
            e0[row@[k].1 as int],
        ) by {
            if k < done {
                assert forall|i: int| 0 <= i < chunk@.len() implies (#[trigger] chunk@[i]).0 != row@[k].0 by {
                    assert(chunk@[i] == row@[done + i]);
                }
            } else {
                let i = k - done;
                assert(chunk@[i] == row@[k]);
                assert forall|m: int| 0 <= m < done implies (#[trigger] row@[m]).0 != row@[k].0 && row@[m].0 != row@[k].1 by {
                    assert(row@[m] != row@[k] || m == k);
                }
            }
        }
        assert forall|p: int|
            0 <= p < e0.len() && (forall|k: int| 0 <= k < end ==> (#[trigger] row@[k]).0 != p)
                implies elems@[p] == e0[p] by {
            assert forall|i: int| 0 <= i < chunk@.len() implies (#[trigger] chunk@[i]).0 != p by {
                assert(chunk@[i] == row@[done + i]);
            }
            assert forall|k: int| 0 <= k < done implies (#[trigger] row@[k]).0 != p by {
                assert(row@[k].0 != p);
            }
        }
        done = end;
    }
}

} // verus!

verus! {

/// Emits the pairs of one bucket and returns the positions that survive.
fn halve_bucket(l: &Vec<usize>, row: &mut Vec<(usize, usize)>) -> (h: Vec<usize>)
    ensures
        h@ == halve(l@),
        final(row)@ == old(row)@ + pairs(l@),
{
    let len = l.len();
    let mut h: Vec<usize> = Vec::new();
    let mut j: usize = 0;
    while j < len / 2
        invariant
            len == l@.len(),
            j <= len / 2,
            h@ == halve(l@).subrange(0, j as int),
            row@ == old(row)@ + pairs(l@).subrange(0, j as int),
        decreases len / 2 - j,
    {
        let x = l[2 * j];
        let y = l[2 * j + 1];
        h.push(x);
        row.push((x, y));
        proof {
            assert(halve(l@).subrange(0, j + 1) == halve(l@).subrange(0, j as int).push(x));
            assert(pairs(l@).subrange(0, j + 1) == pairs(l@).subrange(0, j as int).push((x, y)));
        }
        j = j + 1;
    }
    if len % 2 == 1 {
        h.push(l[len - 1]);
        assert(halve(l@).subrange(0, (len / 2 + 1) as int) == halve(l@).subrange(0, (len / 2) as int).push(l@[len - 1]));
    }
    assert(h@ == halve(l@));
    assert(pairs(l@).subrange(0, (len / 2) as int) == pairs(l@));
    h
}

/// After one level has run, each bucket still sums to what it did, and the
/// index stays well formed.
proof fn lemma_level_sums<G: CurveGroup>(
    li: Seq<Seq<usize>>,
    assign: Seq<usize>,
    n: nat,
    thr: nat,
    eb: Seq<G>,
    en: Seq<G>,
)
    requires
        index_wf(li, assign, n),
        n <= assign.len(),
        n <= eb.len(),
        en.len() == eb.len(),
        all_valid(eb),
        forall|k: int|
            0 <= k < level_instr(li, thr, li.len()).len() ==> en[(#[trigger] level_instr(
                li,
                thr,
                li.len(),
            )[k]).0 as int] == eb[level_instr(li, thr, li.len())[k].0 as int].plus(
                eb[level_instr(li, thr, li.len())[k].1 as int],
            ),
        forall|p: int|
            0 <= p < eb.len() && (forall|k: int|
                0 <= k < level_instr(li, thr, li.len()).len() ==> (#[trigger] level_instr(
                    li,
                    thr,
                    li.len(),
                )[k]).0 != p) ==> en[p] == eb[p],
    ensures
        index_wf(next_level(li, thr), assign, n),
        forall|c: int|
            0 <= c < li.len() ==> sum_at(en, #[trigger] next_level(li, thr)[c]) == sum_at(eb, li[c]),
{
    let row = level_instr(li, thr, li.len());
    let nl = next_level(li, thr);
    assert forall|c: int| 0 <= c < li.len() implies sum_at(en, #[trigger] nl[c]) == sum_at(eb, li[c]) by {
        lemma_level_instr_bucket(li, assign, n, thr, li.len(), c as nat);
        let l = li[c];
        if l.len() > thr {
            let start = level_instr(li, thr, c as nat).len();
            assert forall|j: int| 0 <= j < l.len() / 2 implies en[#[trigger] l[2 * j] as int]
                == eb[l[2 * j] as int].plus(eb[l[2 * j + 1] as int]) by {
                assert(row[start + j] == pairs(l)[j]);
            }
            if l.len() % 2 == 1 {
                let i = l.len() - 1;
                assert forall|k: int| 0 <= k < row.len() implies (#[trigger] row[k]).0 != l[i] by {
                    if row[k].0 == l[i] {
                        assert(li[c][i] == l[i]);
                    }
                }
            }
            lemma_halve_sum(eb, en, l);
        } else {
            assert forall|i: int| 0 <= i < l.len() implies en[#[trigger] l[i] as int] == eb[l[i] as int] by {
                assert forall|k: int| 0 <= k < row.len() implies (#[trigger] row[k]).0 != l[i] by {
                    if row[k].0 == l[i] {
                        assert(li[c][i] == l[i]);
                    }
                }
            }
            lemma_sum_at_frame(en, eb, l);
        }
    }
    assert forall|b: int, i: int, j: int| 0 <= b < nl.len() && 0 <= i < j < nl[b].len() implies (
    #[trigger] nl[b][i]) < (#[trigger] nl[b][j]) by {
        if li[b].len() > thr {
            assert(nl[b][i] == li[b][2 * i]);
            assert(nl[b][j] == li[b][2 * j]);
        }
    }
    assert forall|b: int, i: int| 0 <= b < nl.len() && 0 <= i < nl[b].len() implies (
    #[trigger] nl[b][i]) < n && assign[nl[b][i] as int] == b by {
        if li[b].len() > thr {
            assert(nl[b][i] == li[b][2 * i]);
        }
    }
}

} // verus!

verus! {

/// Reduces every bucket of the index to at most one position with a binary
/// addition tree, one level at a time, and reads off one sum per bucket.
/// After `ceil(log2(longest bucket))` levels no bucket holds more than one
/// position, so reading off the sums cannot fail.
fn reduce_tree<G: CurveGroup>(
    buckets: usize,
    elems: &mut Vec<G>,
    index: InvertedIndex,
    Ghost(assign): Ghost<Seq<usize>>,
) -> (res: Vec<G>)
    requires
        index.wf(),
        index.lists().len() == buckets,
        index_wf(index.lists(), assign, assign.len()),
        assign.len() <= old(elems)@.len(),
        all_valid(old(elems)@),
    ensures
        res@.len() == buckets,
        all_valid(res@),
        final(elems)@.len() == old(elems)@.len(),
        forall|b: int| 0 <= b < buckets ==> #[trigger] res@[b] == sum_at(old(elems)@, index.lists()[b]),
        forall|p: int|
            0 <= p < old(elems)@.len() && (p >= assign.len() || assign[p] >= buckets) ==> #[trigger] final(elems)@[p]
                == old(elems)@[p],
{
    let ghost n = assign.len();
    let ghost e0 = elems@;
    let ghost orig = index.lists();
    let mut index = index;
    let mut max_len: usize = 0;
    let mut b: usize = 0;
    while b < buckets
        invariant
            b <= buckets,
            index.wf(),
            index.lists().len() == buckets,
            forall|c: int| 0 <= c < b ==> (#[trigger] index.lists()[c]).len() <= max_len,
        decreases buckets - b,
    {
        let len = index.len_of(b);
        if len > max_len {
            max_len = len;
        }
        b = b + 1;
    }
    // The smallest power of two that bounds every bucket's length.
    let mut cap: u128 = 1;
    let ghost mut d: nat = 0;
    while cap < max_len as u128
        invariant
            1 <= cap <= 2 * (max_len as u128) + 1,
            cap == pow2(d),
        decreases 2 * (max_len as u128) + 1 - cap,
    {
        cap = cap * 2;
        proof {
            d = d + 1;
        }
    }
    while cap > 1
        invariant
            cap >= 1,
            cap == pow2(d),
            n == assign.len(),
            orig.len() == buckets,
            index.wf(),
            index.lists().len() == buckets,
            index_wf(index.lists(), assign, n),
            n <= e0.len(),
            elems@.len() == e0.len(),
            all_valid(e0),
            all_valid(elems@),
            forall|c: int| 0 <= c < buckets ==> (#[trigger] index.lists()[c]).len() <= cap,
            forall|p: int|
                0 <= p < e0.len() && (p >= assign.len() || assign[p] >= buckets) ==> #[trigger] elems@[p] == e0[p],
            forall|c: int|
                0 <= c < buckets ==> sum_at(elems@, #[trigger] index.lists()[c]) == sum_at(e0, orig[c]),
        decreases cap,
    {
        let thr: u128 = cap / 2;
        let ghost li = index.lists();
        let ghost eb = elems@;
        let mut row: Vec<(usize, usize)> = Vec::new();
        let mut b: usize = 0;
        while b < buckets
            invariant
                b <= buckets,
                index.wf(),
                index.lists().len() == buckets,
                li.len() == buckets,
                row@ == level_instr(li, thr as nat, b as nat),
                forall|c: int| 0 <= c < b ==> (#[trigger] index.lists()[c]) == next_level(li, thr as nat)[c],
                forall|c: int| b <= c < buckets ==> (#[trigger] index.lists()[c]) == li[c],
            decreases buckets - b,
        {
            if index.len_of(b) as u128 > thr {
                let l = index.list_of(b);
                let h = halve_bucket(&l, &mut row);
                index.set_list(b, h);
            }
            b = b + 1;
        }
        proof {
            assert(index.lists() == next_level(li, thr as nat));
            lemma_level_instr(li, assign, n, thr as nat, li.len());
        }
        execute_level(elems, &row);
        proof {
            lemma_level_sums(li, assign, n, thr as nat, eb, elems@);
            assert forall|p: int|
                0 <= p < e0.len() && (p >= assign.len() || assign[p] >= buckets) implies #[trigger] elems@[p]
                    == e0[p] by {
                assert forall|k: int| 0 <= k < row@.len() implies (#[trigger] row@[k]).0 != p by {}
            }
            assert forall|c: int| 0 <= c < buckets implies (#[trigger] index.lists()[c]).len() <= thr by {
                assert(index.lists()[c] == next_level(li, thr as nat)[c]);
            }
            assert forall|c: int| 0 <= c < buckets implies sum_at(elems@, #[trigger] index.lists()[c])
                == sum_at(e0, orig[c]) by {
                assert(index.lists()[c] == next_level(li, thr as nat)[c]);
            }
        }
        cap = thr;
        proof {
            d = (d - 1) as nat;
        }
    }
    let mut res: Vec<G> = Vec::new();
    let mut b: usize = 0;
    while b < buckets
        invariant
            b <= buckets,
            index.wf(),
            index.lists().len() == buckets,
            res@.len() == b,
            n == assign.len(),
            orig.len() == buckets,
            index_wf(index.lists(), assign, n),
            n <= e0.len(),
            elems@.len() == e0.len(),
            all_valid(elems@),
            forall|c: int| 0 <= c < buckets ==> (#[trigger] index.lists()[c]).len() <= 1,
            forall|p: int|
                0 <= p < e0.len() && (p >= assign.len() || assign[p] >= buckets) ==> #[trigger] elems@[p] == e0[p],
            forall|c: int|
                0 <= c < buckets ==> sum_at(elems@, #[trigger] index.lists()[c]) == sum_at(e0, orig[c]),
            forall|c: int| 0 <= c < b ==> #[trigger] res@[c] == sum_at(e0, orig[c]),
            all_valid(res@),
        decreases buckets - b,
    {
        let ghost l = index.lists()[b as int];
        if index.len_of(b) == 1 {
            let lv = index.list_of(b);
            let p = lv[0];
            assert(l[0] == p);
            let x = elems[p];
            proof {
                assert(l.drop_last().len() == 0);
                assert(sum_at(elems@, l.drop_last()) == G::identity());
                assert(l.last() == p);
                G::lemma_identity_valid();
                G::lemma_plus_comm(G::identity(), x);
                G::lemma_plus_identity(x);
                assert(sum_at(elems@, l) == x);
            }
            res.push(x);
        } else {
            proof {
                G::lemma_identity_valid();
            }
            assert(sum_at(elems@, l) == G::identity());
            res.push(G::zero());
        }
        b = b + 1;
    }
    res
}

/// The sum of the elements assigned to each bucket, as `batch_bucketed_add`
/// gives it, with the inverted index filled in a single pass and inline slots
/// of twice the average bucket load.
///
/// `result[b]` is the sum of the elements whose assignment is `b`, or the
/// identity for an empty bucket; assignments at or above `buckets` are
/// ignored. The elements are used as scratch space.
fn reduce_buckets_single_pass<G: CurveGroup>(
    buckets: usize,
    elems: &mut Vec<G>,
    bucket_assign: &[usize],
) -> (res: Vec<G>)
    requires
        bucket_assign@.len() <= old(elems)@.len(),
        all_valid(old(elems)@),
    ensures
        res@.len() == buckets,
        all_valid(res@),
        final(elems)@.len() == old(elems)@.len(),
        forall|b: int|
            0 <= b < buckets ==> #[trigger] res@[b] == bucket_fold(
                old(elems)@,
                bucket_assign@,
                b,
                bucket_assign@.len(),
            ),
        forall|p: int|
            0 <= p < old(elems)@.len() && (p >= bucket_assign@.len() || bucket_assign@[p] >= buckets)
                ==> #[trigger] final(elems)@[p] == old(elems)@[p],
{
    if buckets == 0 {
        return Vec::new();
    }
    let per = bucket_assign.len() / buckets;
    let cap = slot_capacity(buckets, if per <= usize::MAX / RATIO_MULTIPLIER {
        per * RATIO_MULTIPLIER
    } else {
        1
    });
    let index = build_index_direct(buckets, bucket_assign, cap);
    proof {
        lemma_index_from_positions(index.lists(), bucket_assign@, old(elems)@);
    }
    reduce_tree(buckets, elems, index, Ghost(bucket_assign@))
}

/// An index built from `bucket_positions` is well formed and sums to the
/// naive folds.
proof fn lemma_index_from_positions<G: CurveGroup>(index: Seq<Seq<usize>>, assign: Seq<usize>, elems: Seq<G>)
    requires
        assign.len() <= usize::MAX,
        forall|b: int|
            0 <= b < index.len() ==> (#[trigger] index[b]) == bucket_positions(assign, b, assign.len()),
    ensures
        index_wf(index, assign, assign.len()),
        forall|b: int|
            0 <= b < index.len() ==> sum_at(elems, #[trigger] index[b]) == bucket_fold(
                elems,
                assign,
                b,
                assign.len(),
            ),
{
    let li = index;
    assert forall|b: int| 0 <= b < index.len() implies sum_at(elems, #[trigger] index[b]) == bucket_fold(
        elems,
        assign,
        b,
        assign.len(),
    ) by {
        lemma_bucket_positions_sum(elems, assign, b, assign.len());
    }
    assert forall|b: int, i: int| 0 <= b < li.len() && 0 <= i < li[b].len() implies (#[trigger] li[b][i])
        < assign.len() && assign[li[b][i] as int] == b by {
        lemma_bucket_positions_sum(elems, assign, b, assign.len());
    }
    assert forall|b: int, i: int, j: int| 0 <= b < li.len() && 0 <= i < j < li[b].len() implies (
    #[trigger] li[b][i]) < (#[trigger] li[b][j]) by {
        lemma_bucket_positions_sum(elems, assign, b, assign.len());
    }
}

} // verus!

verus! {

/// `l` is the ceiling of the base-two logarithm of `x`, 0 for `x <= 1`.
pub open spec fn is_ceil_log2(x: nat, l: nat) -> bool {
    x <= pow2(l) && (l == 0 || pow2((l - 1) as nat) < x)
}

/// The ceiling of the base-two logarithm of `x`; 0 for `x <= 1`.
pub fn log2(x: usize) -> (r: u32)
    ensures
        is_ceil_log2(x as nat, r as nat),
        x <= pow2(r as nat),
        r == 0 || pow2((r - 1) as nat) < x,
        r <= 64,
{
    let mut t: u128 = 1;
    let mut r: u32 = 0;
    while t < x as u128
        invariant
            t == pow2(r as nat),
            r == 0 || pow2((r - 1) as nat) < x,
            1 <= t <= 2 * (x as u128) + 1,
            r <= 64,
        decreases 2 * (x as u128) + 1 - t,
    {
        proof {
            if r >= 64 {
                lemma_pow2_at_least_64(r as nat);
            }
        }
        t = t * 2;
        r = r + 1;
    }
    r
}

/// The entries `(bucket, position)` of one coarse split: positions below `k`
/// whose bucket is below `buckets` and falls in split `g` of width `ss`.
pub open spec fn split_entries(assign: Seq<usize>, buckets: nat, ss: nat, g: int, k: nat) -> Seq<(usize, usize)>
    decreases k,
{
    if k == 0 {
        Seq::empty()
    } else {
        let prev = split_entries(assign, buckets, ss, g, (k - 1) as nat);
        if assign[k - 1] < buckets && assign[k - 1] as int / ss as int == g {
            prev.push((assign[k - 1], (k - 1) as usize))
        } else {
            prev
        }
    }
}

/// The positions of the entries of bucket `b`, in order.
pub open spec fn entry_positions(e: Seq<(usize, usize)>, b: int) -> Seq<usize>
    decreases e.len(),
{
    if e.len() == 0 {
        Seq::empty()
    } else {
        let prev = entry_positions(e.drop_last(), b);
        if e.last().0 == b {
            prev.push(e.last().1)
        } else {
            prev
        }
    }
}

proof fn lemma_entry_positions_len(e: Seq<(usize, usize)>, b: int)
    ensures
        entry_positions(e, b).len() <= e.len(),
    decreases e.len(),
{
    if e.len() > 0 {
        lemma_entry_positions_len(e.drop_last(), b);
    }
}

proof fn lemma_split_positions(assign: Seq<usize>, buckets: nat, ss: nat, b: int, k: nat)
    requires
        0 <= b < buckets,
        ss > 0,
        k <= assign.len(),
    ensures
        entry_positions(split_entries(assign, buckets, ss, b / ss as int, k), b) == bucket_positions(assign, b, k),
    decreases k,
{
    if k > 0 {
        lemma_split_positions(assign, buckets, ss, b, (k - 1) as nat);
        let e = split_entries(assign, buckets, ss, b / ss as int, k);
        let prev = split_entries(assign, buckets, ss, b / ss as int, (k - 1) as nat);
        if assign[k - 1] < buckets && assign[k - 1] as int / ss as int == b / ss as int {
            assert(e.drop_last() == prev);
        }
    }
}

/// The same index as `build_index_direct`, built in two passes: positions are
/// first grouped into coarse splits of neighbouring buckets, then each split
/// fills its buckets, which keeps the writes of the second pass local.
fn build_index_split(buckets: usize, assign: &[usize], cap: usize) -> (index: InvertedIndex)
    requires
        buckets > 0,
        cap > 0,
        buckets * cap <= usize::MAX,
    ensures
        index.wf(),
        index.lists().len() == buckets,
        forall|b: int|
            0 <= b < buckets ==> (#[trigger] index.lists()[b]) == bucket_positions(assign@, b, assign@.len()),
{
    // About four times the square root of `buckets` splits, never more than
    // there are buckets.
    let lg: u32 = log2(buckets) / 2 + 2;
    let mut num_split: usize = 1;
    let mut i: u32 = 0;
    while i < lg && num_split <= buckets / 2
        invariant
            1 <= num_split <= buckets,
        decreases lg - i,
    {
        num_split = num_split * 2;
        i = i + 1;
    }
    let split_size: usize = (buckets - 1) / num_split + 1;
    let mut bucket_split: Vec<Vec<(usize, usize)>> = Vec::new();
    let mut s: usize = 0;
    while s < num_split
        invariant
            s <= num_split,
            bucket_split@.len() == s,
            forall|g: int| 0 <= g < s ==> (#[trigger] bucket_split@[g])@ == split_entries(
                assign@, buckets as nat, split_size as nat, g, 0),
        decreases num_split - s,
    {
        bucket_split.push(Vec::new());
        s = s + 1;
    }
    let mut p: usize = 0;
    while p < assign.len()
        invariant
            p <= assign@.len(),
            split_size > 0,
            split_size as int == (buckets as int - 1) / (num_split as int) + 1,
            num_split > 0,
            bucket_split@.len() == num_split,
            forall|g: int| 0 <= g < num_split ==> (#[trigger] bucket_split@[g])@ == split_entries(
                assign@, buckets as nat, split_size as nat, g, p as nat),
        decreases assign@.len() - p,
    {
        let bk = assign[p];
        if bk < buckets {
            let g = bk / split_size;
            assert(g < num_split) by (nonlinear_arith)
                requires
                    g as int == bk as int / (split_size as int),
                    bk < buckets,
                    split_size as int == (buckets as int - 1) / (num_split as int) + 1,
                    num_split > 0,
            {
                assert(split_size * num_split > buckets - 1);
            }
            bucket_split[g].push((bk, p));
        }
        p = p + 1;
    }
    let mut index = InvertedIndex::new(buckets, cap);
    let mut s: usize = 0;
    while s < num_split
        invariant
            s <= num_split,
            split_size > 0,
            bucket_split@.len() == num_split,
            index.wf(),
            index.lists().len() == buckets,
            forall|g: int| 0 <= g < num_split ==> (#[trigger] bucket_split@[g])@ == split_entries(
                assign@, buckets as nat, split_size as nat, g, assign@.len()),
            forall|c: int| 0 <= c < buckets ==> (#[trigger] index.lists()[c]) == if c / (split_size as int) < s {
                bucket_positions(assign@, c, assign@.len())
            } else {
                Seq::<usize>::empty()
            },
        decreases num_split - s,
    {
        let split = &bucket_split[s];
        let mut t: usize = 0;
        while t < split.len()
            invariant
                t <= split@.len(),
                split_size > 0,
                split@ == split_entries(assign@, buckets as nat, split_size as nat, s as int, assign@.len()),
                index.wf(),
                index.lists().len() == buckets,
                forall|c: int| 0 <= c < buckets ==> (#[trigger] index.lists()[c]) == if c / (split_size as int) < s {
                    bucket_positions(assign@, c, assign@.len())
                } else if c / (split_size as int) == s {
                    entry_positions(split@.subrange(0, t as int), c)
                } else {
                    Seq::<usize>::empty()
                },
            decreases split@.len() - t,
        {
            let (bk, pos) = split[t];
            proof {
                lemma_split_entry(assign@, buckets as nat, split_size as nat, s as int, assign@.len(), t as int);
                assert(split@.subrange(0, t + 1).drop_last() == split@.subrange(0, t as int));
                lemma_entry_positions_len(split@.subrange(0, t as int), bk as int);
            }
            index.push(bk, pos);
            t = t + 1;
        }
        proof {
            assert(split@.subrange(0, split@.len() as int) == split@);
            assert forall|c: int| 0 <= c < buckets && c / (split_size as int) == s implies
                entry_positions(split@, c) == bucket_positions(assign@, c, assign@.len()) by {
                lemma_split_positions(assign@, buckets as nat, split_size as nat, c, assign@.len());
            }
        }
        s = s + 1;
    }
    proof {
        assert forall|c: int| 0 <= c < buckets implies (#[trigger] index.lists()[c]) == bucket_positions(assign@, c, assign@.len()) by {
            assert(c / (split_size as int) < num_split) by (nonlinear_arith)
                requires
                    0 <= c < buckets,
                    split_size as int == (buckets as int - 1) / (num_split as int) + 1,
                    num_split > 0,
            {
                assert(split_size * num_split > buckets - 1);
            }
        }
    }
    index
}

/// Each entry of a split names a bucket of that split, below `buckets`.
proof fn lemma_split_entry(assign: Seq<usize>, buckets: nat, ss: nat, g: int, k: nat, t: int)
    requires
        ss > 0,
        k <= assign.len(),
        0 <= t < split_entries(assign, buckets, ss, g, k).len(),
    ensures
        split_entries(assign, buckets, ss, g, k)[t].0 < buckets,
        split_entries(assign, buckets, ss, g, k)[t].0 as int / ss as int == g,
    decreases k,
{
    if k > 0 {
        let prev = split_entries(assign, buckets, ss, g, (k - 1) as nat);
        if t < prev.len() {
            lemma_split_entry(assign, buckets, ss, g, (k - 1) as nat, t);
        }
    }
}

/// The sum of the elements assigned to each bucket, computed with a binary
/// addition tree whose levels run as batched in-place additions.
///
/// `result[b]` is the sum of the elements whose assignment is `b`, or the
/// identity for an empty bucket; assignments at or above `buckets` are
/// ignored. The inverted index is built in two passes through coarse splits
/// of neighbouring buckets. The elements are used as scratch space.
pub(crate) fn reduce_buckets<G: CurveGroup>(
    buckets: usize,
    elems: &mut Vec<G>,
    bucket_assign: &[usize],
) -> (res: Vec<G>)
    requires
        bucket_assign@.len() <= old(elems)@.len(),
        all_valid(old(elems)@),
    ensures
        res@.len() == buckets,
        all_valid(res@),
        final(elems)@.len() == old(elems)@.len(),
        forall|b: int|
            0 <= b < buckets ==> #[trigger] res@[b] == bucket_fold(
                old(elems)@,
                bucket_assign@,
                b,
                bucket_assign@.len(),
            ),
        forall|p: int|
            0 <= p < old(elems)@.len() && (p >= bucket_assign@.len() || bucket_assign@[p] >= buckets)
                ==> #[trigger] final(elems)@[p] == old(elems)@[p],
{
    if buckets == 0 {
        return Vec::new();
    }
    let n = bucket_assign.len();
    let per: usize = if n == 0 {
        1
    } else {
        (n - 1) / buckets + 1
    };
    let want: usize = if per <= usize::MAX / RATIO_MULTIPLIER {
        per * RATIO_MULTIPLIER
    } else {
        1
    };
    let cap = slot_capacity(buckets, want);
    let index = build_index_split(buckets, bucket_assign, cap);
    proof {
        lemma_index_from_positions(index.lists(), bucket_assign@, old(elems)@);
    }
    reduce_tree(buckets, elems, index, Ghost(bucket_assign@))
}

} // verus!

verus! {

/// A bucket's fold depends only on the first `k` elements and assignments.
proof fn lemma_bucket_fold_prefix<G: CurveGroup>(
    e1: Seq<G>,
    a1: Seq<usize>,
    e2: Seq<G>,
    a2: Seq<usize>,
    b: int,
    k: nat,
)
    requires
        k <= e1.len(),
        k <= e2.len(),
        k <= a1.len(),
        k <= a2.len(),
        forall|i: int| 0 <= i < k ==> #[trigger] e1[i] == e2[i],
        forall|i: int| 0 <= i < k ==> #[trigger] a1[i] == a2[i],
    ensures
        bucket_fold(e1, a1, b, k) == bucket_fold(e2, a2, b, k),
    decreases k,
{
    if k > 0 {
        lemma_bucket_fold_prefix(e1, a1, e2, a2, b, (k - 1) as nat);
    }
}

/// The sums of the buckets of `[lo, lo + cnt)`, from the elements assigned to
/// them, gathered and reduced on their own.
fn reduce_range<G: CurveGroup>(elems: &[G], bucket_assign: &[usize], lo: usize, cnt: usize) -> (res: Vec<G>)
    requires
        bucket_assign@.len() <= elems@.len(),
        all_valid(elems@),
        lo + cnt <= usize::MAX,
    ensures
        res@.len() == cnt,
        all_valid(res@),
        forall|j: int| 0 <= j < cnt ==> #[trigger] res@[j] == bucket_fold(
            elems@,
            bucket_assign@,
            lo + j,
            bucket_assign@.len(),
        ),
{
    let mut sub_elems: Vec<G> = Vec::new();
    let mut sub_assign: Vec<usize> = Vec::new();
    let mut p: usize = 0;
    while p < bucket_assign.len()
        invariant
            p <= bucket_assign@.len() <= elems@.len(),
            lo + cnt <= usize::MAX,
            all_valid(elems@),
            all_valid(sub_elems@),
            sub_elems@.len() == sub_assign@.len(),
            forall|j: int| 0 <= j < cnt ==> #[trigger] bucket_fold(
                sub_elems@,
                sub_assign@,
                j,
                sub_assign@.len(),
            ) == bucket_fold(elems@, bucket_assign@, lo + j, p as nat),
        decreases bucket_assign@.len() - p,
    {
        let a = bucket_assign[p];
        if lo <= a && a - lo < cnt {
            let ghost se = sub_elems@;
            let ghost sa = sub_assign@;
            sub_elems.push(elems[p]);
            sub_assign.push(a - lo);
            proof {
                assert forall|j: int| 0 <= j < cnt implies #[trigger] bucket_fold(
                    sub_elems@,
                    sub_assign@,
                    j,
                    sub_assign@.len(),
                ) == bucket_fold(elems@, bucket_assign@, lo + j, (p + 1) as nat) by {
                    lemma_bucket_fold_prefix(sub_elems@, sub_assign@, se, sa, j, sa.len());
                }
            }
        }
        p = p + 1;
    }
    reduce_buckets(cnt, &mut sub_elems, sub_assign.as_slice())
}

/// The sum of the elements assigned to each bucket, as `batch_bucketed_add`
/// gives it, computed split by split: the buckets are cut into ranges of
/// `2^bucket_size` buckets (`2^16` from `2^26` buckets up), the elements of
/// each range are gathered and reduced on their own, and the results are
/// concatenated in order.
fn reduce_buckets_by_ranges<G: CurveGroup>(
    buckets: usize,
    elems: &[G],
    bucket_assign: &[usize],
    bucket_size: u32,
) -> (res: Vec<G>)
    requires
        bucket_assign@.len() <= elems@.len(),
        all_valid(elems@),
        bucket_size < usize::BITS,
    ensures
        res@.len() == buckets,
        all_valid(res@),
        forall|b: int|
            0 <= b < buckets ==> #[trigger] res@[b] == bucket_fold(
                elems@,
                bucket_assign@,
                b,
                bucket_assign@.len(),
            ),
{
    let split_size: usize = if buckets >= 0x400_0000 {
        0x1_0000
    } else {
        proof {
            vstd::bits::lemma_usize_pow2_no_overflow(bucket_size as nat);
        }
        1usize << bucket_size
    };
    proof {
        vstd::bits::lemma_usize_pow2_no_overflow(bucket_size as nat);
        vstd::bits::lemma_usize_shl_is_mul(1, bucket_size as usize);
    }
    let mut res: Vec<G> = Vec::new();
    let mut lo: usize = 0;
    while lo < buckets
        invariant
            lo <= buckets,
            split_size > 0,
            bucket_assign@.len() <= elems@.len(),
            all_valid(elems@),
            res@.len() == lo,
            all_valid(res@),
            forall|b: int| 0 <= b < lo ==> #[trigger] res@[b] == bucket_fold(
                elems@,
                bucket_assign@,
                b,
                bucket_assign@.len(),
            ),
        decreases buckets - lo,
    {
        let cnt = if buckets - lo > split_size {
            split_size
        } else {
            buckets - lo
        };
        let mut part = reduce_range(elems, bucket_assign, lo, cnt);
        let ghost before = res@;
        let ghost pv = part@;
        res.append(&mut part);
        proof {
            assert forall|b: int| 0 <= b < lo + cnt implies #[trigger] res@[b] == bucket_fold(
                elems@,
                bucket_assign@,
                b,
                bucket_assign@.len(),
            ) by {
                if b >= lo {
                    assert(res@[b] == pv[b - lo]) by {
                        assert(res@ == before + pv);
                    }
                }
            }
        }
        lo = lo + cnt;
    }
    res
}

} // verus!

verus! {

/// The sum of the elements assigned to each bucket, computed with a binary
/// addition tree whose levels run as batched in-place additions; the
/// inverted index is built in two passes through coarse splits of
/// neighbouring buckets.
///
/// `result[b]` is the sum of the elements whose assignment is `b`, or the
/// identity for an empty bucket; assignments at or above `buckets` are
/// ignored and their elements left as they are. Elements and assignments
/// that differ in number are refused before anything is touched. The
/// elements are used as scratch space.
pub fn batch_bucketed_add<G: CurveGroup>(
    buckets: usize,
    elems: &mut Vec<G>,
    bucket_assign: &[usize],
) -> (r: Result<Vec<G>, EngineError>)
    requires
        all_valid(old(elems)@),
    ensures
        old(elems)@.len() != bucket_assign@.len() <==> r == Err::<Vec<G>, EngineError>(
            EngineError::InputLengthMismatch,
        ),
        r is Err ==> final(elems)@ == old(elems)@,
        r matches Ok(res) ==> res@.len() == buckets
            && all_valid(res@)
            && final(elems)@.len() == old(elems)@.len()
            && (forall|b: int|
                0 <= b < buckets ==> #[trigger] res@[b] == bucket_fold(
                    old(elems)@,
                    bucket_assign@,
                    b,
                    bucket_assign@.len(),
                ))
            && (forall|p: int|
                0 <= p < old(elems)@.len() && bucket_assign@[p] >= buckets ==> #[trigger] final(elems)@[p]
                    == old(elems)@[p]),
{
    if elems.len() != bucket_assign.len() {
        return Err(EngineError::InputLengthMismatch);
    }
    Ok(reduce_buckets(buckets, elems, bucket_assign))
}

/// The sum of the elements assigned to each bucket, as `batch_bucketed_add`
/// gives it, with the inverted index filled in a single pass and inline slots
/// of twice the average bucket load.
pub fn batch_bucketed_add_old<G: CurveGroup>(
    buckets: usize,
    elems: &mut Vec<G>,
    bucket_assign: &[usize],
) -> (r: Result<Vec<G>, EngineError>)
    requires
        all_valid(old(elems)@),
    ensures
        old(elems)@.len() != bucket_assign@.len() <==> r == Err::<Vec<G>, EngineError>(
            EngineError::InputLengthMismatch,
        ),
        r is Err ==> final(elems)@ == old(elems)@,
        r matches Ok(res) ==> res@.len() == buckets
            && all_valid(res@)
            && final(elems)@.len() == old(elems)@.len()
            && (forall|b: int|
                0 <= b < buckets ==> #[trigger] res@[b] == bucket_fold(
                    old(elems)@,
                    bucket_assign@,
                    b,
                    bucket_assign@.len(),
                ))
            && (forall|p: int|
                0 <= p < old(elems)@.len() && bucket_assign@[p] >= buckets ==> #[trigger] final(elems)@[p]
                    == old(elems)@[p]),
{
    if elems.len() != bucket_assign.len() {
        return Err(EngineError::InputLengthMismatch);
    }
    Ok(reduce_buckets_single_pass(buckets, elems, bucket_assign))
}

/// The sum of the elements assigned to each bucket, as `batch_bucketed_add`
/// gives it, computed split by split: the buckets are cut into ranges of
/// `2^bucket_size` buckets (`2^16` from `2^26` buckets up), the elements of
/// each range are gathered and reduced on their own, and the results are
/// concatenated in order. Elements and assignments that differ in number are
/// refused.
pub fn batch_bucketed_add_split<G: CurveGroup>(
    buckets: usize,
    elems: &[G],
    bucket_assign: &[usize],
    bucket_size: u32,
) -> (r: Result<Vec<G>, EngineError>)
    requires
        all_valid(elems@),
        bucket_size < usize::BITS,
    ensures
        elems@.len() != bucket_assign@.len() <==> r == Err::<Vec<G>, EngineError>(
            EngineError::InputLengthMismatch,
        ),
        r matches Ok(res) ==> res@.len() == buckets && all_valid(res@) && forall|b: int|
            0 <= b < buckets ==> #[trigger] res@[b] == bucket_fold(
                elems@,
                bucket_assign@,
                b,
                bucket_assign@.len(),
            ),
{
    if elems.len() != bucket_assign.len() {
        return Err(EngineError::InputLengthMismatch);
    }
    Ok(reduce_buckets_by_ranges(buckets, elems, bucket_assign, bucket_size))
}

} // verus!
