use vstd::prelude::*;
use crate::group::{CurveGroup, all_valid, smul, msm_prefix, pow2};

verus! {

pub proof fn lemma_identity_left<G: CurveGroup>(a: G)
    requires
        a.valid(),
    ensures
        G::identity().plus(a) == a,
{
    G::lemma_identity_valid();
    G::lemma_plus_comm(G::identity(), a);
    G::lemma_plus_identity(a);
}

pub proof fn lemma_smul_valid<G: CurveGroup>(k: nat, p: G)
    requires
        p.valid(),
    ensures
        smul(k, p).valid(),
    decreases k,
{
    if k == 0 {
        G::lemma_identity_valid();
    } else {
        lemma_smul_valid((k - 1) as nat, p);
        G::lemma_plus_valid(smul((k - 1) as nat, p), p);
    }
}

/// `(a + b) p = a p + b p`.
pub proof fn lemma_smul_add<G: CurveGroup>(a: nat, b: nat, p: G)
    requires
        p.valid(),
    ensures
        smul(a + b, p) == smul(a, p).plus(smul(b, p)),
    decreases b,
{
    lemma_smul_valid(a, p);
    if b == 0 {
        G::lemma_plus_identity(smul(a, p));
        assert(a + b == a);
    } else {
        lemma_smul_add(a, (b - 1) as nat, p);
        lemma_smul_valid((b - 1) as nat, p);
        G::lemma_plus_assoc(smul(a, p), smul((b - 1) as nat, p), p);
        assert((a + b - 1) as nat == a + (b - 1) as nat);
    }
}

/// `(a + b) + (c + d) = (a + c) + (b + d)`.
pub proof fn lemma_swap4<G: CurveGroup>(a: G, b: G, c: G, d: G)
    requires
        a.valid(),
        b.valid(),
        c.valid(),
        d.valid(),
    ensures
        a.plus(b).plus(c.plus(d)) == a.plus(c).plus(b.plus(d)),
{
    G::lemma_plus_valid(c, d);
    G::lemma_plus_valid(b, c);
    G::lemma_plus_valid(b, d);
    G::lemma_plus_assoc(a, b, c.plus(d));
    G::lemma_plus_assoc(b, c, d);
    G::lemma_plus_comm(b, c);
    G::lemma_plus_assoc(c, b, d);
    G::lemma_plus_assoc(a, c, b.plus(d));
}

/// `k (p + q) = k p + k q`.
pub proof fn lemma_smul_distrib<G: CurveGroup>(k: nat, p: G, q: G)
    requires
        p.valid(),
        q.valid(),
    ensures
        smul(k, p.plus(q)) == smul(k, p).plus(smul(k, q)),
    decreases k,
{
    G::lemma_identity_valid();
    if k == 0 {
        G::lemma_plus_identity(G::identity());
    } else {
        let k1 = (k - 1) as nat;
        lemma_smul_distrib(k1, p, q);
        lemma_smul_valid(k1, p);
        lemma_smul_valid(k1, q);
        lemma_swap4(smul(k1, p), smul(k1, q), p, q);
    }
}

/// `(a b) p = a (b p)`.
pub proof fn lemma_smul_mul<G: CurveGroup>(a: nat, b: nat, p: G)
    requires
        p.valid(),
    ensures
        smul(a * b, p) == smul(a, smul(b, p)),
    decreases a,
{
    if a == 0 {
        assert(a * b == 0);
    } else {
        let a1 = (a - 1) as nat;
        lemma_smul_mul(a1, b, p);
        assert(a * b == a1 * b + b) by (nonlinear_arith)
            requires
                a1 == a - 1,
        ;
        lemma_smul_add(a1 * b, b, p);
    }
}

pub proof fn lemma_smul_identity<G: CurveGroup>(k: nat)
    ensures
        smul(k, G::identity()) == G::identity(),
    decreases k,
{
    G::lemma_identity_valid();
    if k > 0 {
        lemma_smul_identity::<G>((k - 1) as nat);
        G::lemma_plus_identity(G::identity());
    }
}

pub proof fn lemma_msm_valid<G: CurveGroup>(bases: Seq<G>, scalars: Seq<nat>, n: nat)
    requires
        n <= bases.len(),
        n <= scalars.len(),
        all_valid(bases),
    ensures
        msm_prefix(bases, scalars, n).valid(),
    decreases n,
{
    if n == 0 {
        G::lemma_identity_valid();
    } else {
        lemma_msm_valid(bases, scalars, (n - 1) as nat);
        lemma_smul_valid(scalars[n - 1], bases[n - 1]);
        G::lemma_plus_valid(
            msm_prefix(bases, scalars, (n - 1) as nat),
            smul(scalars[n - 1], bases[n - 1]),
        );
    }
}

/// The multi-scalar product depends only on the first `n` scalars.
pub proof fn lemma_msm_ext<G: CurveGroup>(bases: Seq<G>, x: Seq<nat>, y: Seq<nat>, n: nat)
    requires
        n <= x.len(),
        n <= y.len(),
        forall|i: int| 0 <= i < n ==> x[i] == y[i],
    ensures
        msm_prefix(bases, x, n) == msm_prefix(bases, y, n),
    decreases n,
{
    if n > 0 {
        lemma_msm_ext(bases, x, y, (n - 1) as nat);
    }
}

/// The multi-scalar product is additive in the scalars.
pub proof fn lemma_msm_add<G: CurveGroup>(bases: Seq<G>, x: Seq<nat>, y: Seq<nat>, z: Seq<nat>, n: nat)
    requires
        n <= bases.len(),
        n <= x.len(),
        n <= y.len(),
        n <= z.len(),
        all_valid(bases),
        forall|i: int| 0 <= i < n ==> z[i] == x[i] + y[i],
    ensures
        msm_prefix(bases, z, n) == msm_prefix(bases, x, n).plus(msm_prefix(bases, y, n)),
    decreases n,
{
    if n == 0 {
        G::lemma_identity_valid();
        G::lemma_plus_identity(G::identity());
    } else {
        let n1 = (n - 1) as nat;
        let b = bases[n - 1];
        lemma_msm_add(bases, x, y, z, n1);
        lemma_smul_add(x[n - 1], y[n - 1], b);
        lemma_msm_valid(bases, x, n1);
        lemma_msm_valid(bases, y, n1);
        lemma_smul_valid(x[n - 1], b);
        lemma_smul_valid(y[n - 1], b);
        lemma_swap4(
            msm_prefix(bases, x, n1),
            msm_prefix(bases, y, n1),
            smul(x[n - 1], b),
            smul(y[n - 1], b),
        );
    }
}

/// Scaling every scalar by `m` scales the product by `m`.
pub proof fn lemma_msm_scale<G: CurveGroup>(bases: Seq<G>, x: Seq<nat>, z: Seq<nat>, m: nat, n: nat)
    requires
        n <= bases.len(),
        n <= x.len(),
        n <= z.len(),
        all_valid(bases),
        forall|i: int| 0 <= i < n ==> z[i] == m * x[i],
    ensures
        msm_prefix(bases, z, n) == smul(m, msm_prefix(bases, x, n)),
    decreases n,
{
    if n == 0 {
        lemma_smul_identity::<G>(m);
    } else {
        let n1 = (n - 1) as nat;
        let b = bases[n - 1];
        lemma_msm_scale(bases, x, z, m, n1);
        lemma_smul_mul(m, x[n - 1], b);
        lemma_msm_valid(bases, x, n1);
        lemma_smul_valid(x[n - 1], b);
        lemma_smul_distrib(m, msm_prefix(bases, x, n1), smul(x[n - 1], b));
    }
}

/// All scalars zero: the product is the identity.
pub proof fn lemma_msm_zero<G: CurveGroup>(bases: Seq<G>, z: Seq<nat>, n: nat)
    requires
        n <= z.len(),
        forall|i: int| 0 <= i < n ==> z[i] == 0,
    ensures
        msm_prefix(bases, z, n) == G::identity(),
    decreases n,
{
    if n > 0 {
        lemma_msm_zero(bases, z, (n - 1) as nat);
        G::lemma_identity_valid();
        G::lemma_plus_identity(G::identity());
    }
}

pub proof fn lemma_pow2_adds(a: nat, b: nat)
    ensures
        pow2(a) * pow2(b) == pow2(a + b),
    decreases a,
{
    if a == 0 {
        assert(pow2(a) == 1);
        assert(a + b == b);
    } else {
        let a1 = (a - 1) as nat;
        let ab: nat = a + b;
        lemma_pow2_adds(a1, b);
        assert(pow2(a) * pow2(b) == 2 * (pow2(a1) * pow2(b))) by (nonlinear_arith)
            requires
                pow2(a) == 2 * pow2(a1),
        ;
        assert((ab - 1) as nat == a1 + b);
        assert(pow2(ab) == 2 * pow2((ab - 1) as nat));
    }
}

pub proof fn lemma_pow2_positive(a: nat)
    ensures
        pow2(a) >= 1,
    decreases a,
{
    if a > 0 {
        lemma_pow2_positive((a - 1) as nat);
    }
}

pub proof fn lemma_pow2_mono(a: nat, b: nat)
    requires
        a <= b,
    ensures
        pow2(a) <= pow2(b),
    decreases b,
{
    if a < b {
        lemma_pow2_mono(a, (b - 1) as nat);
    }
}

/// Doubling `c` times.
pub open spec fn double_times<G: CurveGroup>(x: G, c: nat) -> G
    decreases c,
{
    if c == 0 {
        x
    } else {
        let y = double_times(x, (c - 1) as nat);
        y.plus(y)
    }
}

/// Doubling `c` times multiplies by `2^c`.
pub proof fn lemma_double_times<G: CurveGroup>(x: G, c: nat)
    requires
        x.valid(),
    ensures
        double_times(x, c) == smul(pow2(c), x),
    decreases c,
{
    if c == 0 {
        G::lemma_identity_valid();
        lemma_identity_left(x);
        assert(smul(0, x) == G::identity());
        assert(smul(1, x) == G::identity().plus(x));
    } else {
        lemma_double_times(x, (c - 1) as nat);
        lemma_smul_add(pow2((c - 1) as nat), pow2((c - 1) as nat), x);
    }
}

} // verus!
