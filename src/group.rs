use vstd::prelude::*;
use crate::scalar::ScalarRepr;

verus! {

/// Two instructions of a batch touch disjoint positions, and no instruction
/// adds a position to itself.
pub open spec fn instr_disjoint(instr: Seq<(usize, usize)>) -> bool {
    &&& forall|k: int| 0 <= k < instr.len() ==> (#[trigger] instr[k]).0 != instr[k].1
    &&& forall|k: int, l: int|
        0 <= k < instr.len() && 0 <= l < instr.len() && k != l ==> {
            &&& (#[trigger] instr[k]).0 != (#[trigger] instr[l]).0
            &&& instr[k].0 != instr[l].1
            &&& instr[k].1 != instr[l].1
        }
}

/// Every position named by an instruction lies below `n`.
pub open spec fn instr_in_bounds(instr: Seq<(usize, usize)>, n: int) -> bool {
    forall|k: int| 0 <= k < instr.len() ==> (#[trigger] instr[k]).0 < n && instr[k].1 < n
}

/// The additive group law on curve points, as the rest of the library needs it.
///
/// Implementors give the group law as spec functions, prove the laws of a
/// commutative monoid on well-formed elements, and provide executable
/// addition, doubling and in-place batched addition.
pub trait CurveGroup: Sized + Copy {
    /// The element is a well-formed point.
    spec fn valid(self) -> bool;

    /// Group addition.
    spec fn plus(self, other: Self) -> Self;

    /// The point at infinity.
    spec fn identity() -> Self;

    proof fn lemma_identity_valid()
        ensures
            Self::identity().valid(),
    ;

    proof fn lemma_plus_valid(a: Self, b: Self)
        requires
            a.valid(),
            b.valid(),
        ensures
            a.plus(b).valid(),
    ;

    proof fn lemma_plus_assoc(a: Self, b: Self, c: Self)
        requires
            a.valid(),
            b.valid(),
            c.valid(),
        ensures
            a.plus(b).plus(c) == a.plus(b.plus(c)),
    ;

    proof fn lemma_plus_comm(a: Self, b: Self)
        requires
            a.valid(),
            b.valid(),
        ensures
            a.plus(b) == b.plus(a),
    ;

    proof fn lemma_plus_identity(a: Self)
        requires
            a.valid(),
        ensures
            a.plus(Self::identity()) == a,
    ;

    fn zero() -> (r: Self)
        ensures
            r == Self::identity(),
    ;

    /// Whether the element is a well-formed point.
    fn is_valid(&self) -> (b: bool)
        ensures
            b == self.valid(),
    ;

    fn add(&self, other: &Self) -> (r: Self)
        requires
            self.valid(),
            other.valid(),
        ensures
            r == self.plus(*other),
    ;

    fn double(&self) -> (r: Self)
        requires
            self.valid(),
        ensures
            r == self.plus(*self),
    ;

    /// Adds, for each instruction `(a, b)`, the point at `b` into the point at
    /// `a`. Curves override this with an addition that shares one field
    /// inversion across the batch.
    fn batch_add_in_place(elems: &mut Vec<Self>, instr: &[(usize, usize)])
        requires
            instr_disjoint(instr@),
            instr_in_bounds(instr@, old(elems)@.len() as int),
            forall|i: int| 0 <= i < old(elems)@.len() ==> (#[trigger] old(elems)@[i]).valid(),
        ensures
            final(elems)@.len() == old(elems)@.len(),
            forall|i: int| 0 <= i < final(elems)@.len() ==> (#[trigger] final(elems)@[i]).valid(),
            forall|k: int|
                0 <= k < instr@.len() ==> final(elems)@[(#[trigger] instr@[k]).0 as int]
                    == old(elems)@[instr@[k].0 as int].plus(old(elems)@[instr@[k].1 as int]),
            forall|p: int|
                0 <= p < old(elems)@.len() && (forall|k: int|
                    0 <= k < instr@.len() ==> (#[trigger] instr@[k]).0 != p) ==> final(elems)@[p]
                    == old(elems)@[p],
    {
        let ghost e0 = elems@;
        let mut j: usize = 0;
        while j < instr.len()
            invariant
                0 <= j <= instr@.len(),
                instr_disjoint(instr@),
                instr_in_bounds(instr@, e0.len() as int),
                elems@.len() == e0.len(),
                forall|i: int| 0 <= i < e0.len() ==> (#[trigger] e0[i]).valid(),
                forall|i: int| 0 <= i < elems@.len() ==> (#[trigger] elems@[i]).valid(),
                forall|k: int|
                    0 <= k < j ==> elems@[(#[trigger] instr@[k]).0 as int] == e0[instr@[k].0 as int].plus(
                        e0[instr@[k].1 as int],
                    ),
                forall|p: int|
                    0 <= p < e0.len() && (forall|k: int|
                        0 <= k < j ==> (#[trigger] instr@[k]).0 != p) ==> elems@[p] == e0[p],
            decreases instr@.len() - j,
        {
            let (a, b) = instr[j];
            assert(forall|k: int| 0 <= k < j ==> (#[trigger] instr@[k]).0 != a && instr@[k].0 != b) by {
                assert forall|k: int| 0 <= k < j implies (#[trigger] instr@[k]).0 != a && instr@[k].0
                    != b by {
                    assert(instr@[k] != instr@[j as int] || k == j);
                }
            }
            let s = elems[a].add(&elems[b]);
            proof {
                Self::lemma_plus_valid(elems@[a as int], elems@[b as int]);
            }
            elems.set(a, s);
            j = j + 1;
        }
    }
}

/// Every element of the sequence is a well-formed point.
pub open spec fn all_valid<G: CurveGroup>(s: Seq<G>) -> bool {
    forall|i: int| 0 <= i < s.len() ==> (#[trigger] s[i]).valid()
}

/// `k` times `p`: the sum of `k` copies of `p`.
pub open spec fn smul<G: CurveGroup>(k: nat, p: G) -> G
    decreases k,
{
    if k == 0 {
        G::identity()
    } else {
        smul((k - 1) as nat, p).plus(p)
    }
}

/// The sum, from left to right, of the elements at the listed positions.
pub open spec fn sum_at<G: CurveGroup>(elems: Seq<G>, ps: Seq<usize>) -> G
    decreases ps.len(),
{
    if ps.len() == 0 {
        G::identity()
    } else {
        sum_at(elems, ps.drop_last()).plus(elems[ps.last() as int])
    }
}

/// The sum, from left to right, of a sequence of points.
pub open spec fn sum_seq<G: CurveGroup>(s: Seq<G>) -> G
    decreases s.len(),
{
    if s.len() == 0 {
        G::identity()
    } else {
        sum_seq(s.drop_last()).plus(s.last())
    }
}

/// The multi-scalar product of the first `n` pairs: the sum of `scalars[i]`
/// times `bases[i]`.
pub open spec fn msm_prefix<G: CurveGroup>(bases: Seq<G>, scalars: Seq<nat>, n: nat) -> G
    decreases n,
{
    if n == 0 {
        G::identity()
    } else {
        msm_prefix(bases, scalars, (n - 1) as nat).plus(
            smul(scalars[n - 1], bases[n - 1]),
        )
    }
}

/// The multi-scalar product: the sum of `scalars[i]` times `bases[i]`.
pub open spec fn msm<G: CurveGroup>(bases: Seq<G>, scalars: Seq<nat>) -> G {
    msm_prefix(bases, scalars, bases.len())
}

/// The values of a sequence of scalars.
pub open spec fn scalars_nat<S: ScalarRepr>(s: Seq<S>) -> Seq<nat> {
    s.map_values(|x: S| x.value())
}

} // verus!

verus! {

/// Two to the power `e`.
pub open spec fn pow2(e: nat) -> nat
    decreases e,
{
    if e == 0 {
        1
    } else {
        2 * pow2((e - 1) as nat)
    }
}

/// `pow2` agrees with vstd's power of two, which its shift lemmas speak of.
pub proof fn lemma_pow2_agrees(e: nat)
    ensures
        pow2(e) == vstd::arithmetic::power2::pow2(e),
    decreases e,
{
    if e == 0 {
        vstd::arithmetic::power2::lemma_pow2(0);
        reveal(vstd::arithmetic::power::pow);
    } else {
        lemma_pow2_agrees((e - 1) as nat);
        vstd::arithmetic::power2::lemma_pow2_unfold(e);
    }
}

} // verus!

verus! {

/// Powers of two at or above the 64th are at least 2^64.
pub proof fn lemma_pow2_at_least_64(e: nat)
    requires
        e >= 64,
    ensures
        pow2(e) >= 0x1_0000_0000_0000_0000,
    decreases e,
{
    if e == 64 {
        lemma_pow2_agrees(64);
        vstd::arithmetic::power2::lemma2_to64();
    } else {
        lemma_pow2_at_least_64((e - 1) as nat);
    }
}

} // verus!
