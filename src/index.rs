use vstd::prelude::*;

verus! {

/// Where the positions of one bucket live.
pub enum BucketList {
    /// In the bucket's slot of the flat array, `cap` entries wide.
    Inline,
    /// In a list of its own, once the slot overflowed.
    Spilled(Vec<usize>),
}

/// Per-bucket position lists: a fixed-capacity slot per bucket in one flat
/// array keeps most lists together in memory, and a list that outgrows its
/// slot moves to a growable list of its own.
pub struct InvertedIndex {
    cap: usize,
    flat: Vec<usize>,
    lens: Vec<usize>,
    kinds: Vec<BucketList>,
}

/// Slot `b` of width `cap` covers `[b cap, (b + 1) cap)`; distinct slots are
/// disjoint, and all lie below `n cap`.
proof fn lemma_slot(b: int, j: int, c: int, k: int, cap: int, n: int)
    requires
        0 <= b < n,
        0 <= c < n,
        0 <= j < cap,
        0 <= k < cap,
    ensures
        0 <= b * cap + j < n * cap,
        b * cap + j == c * cap + k ==> b == c && j == k,
        b * cap + cap <= n * cap,
{
    assert(0 <= b * cap + j < n * cap) by (nonlinear_arith)
        requires
            0 <= b < n,
            0 <= j < cap,
    ;
    assert(b * cap + cap <= n * cap) by (nonlinear_arith)
        requires
            0 <= b < n,
            0 <= cap,
    ;
    if b * cap + j == c * cap + k {
        if b < c {
            assert(b * cap + j < c * cap + k) by (nonlinear_arith)
                requires
                    b < c,
                    0 <= j < cap,
                    0 <= k,
            ;
        } else if c < b {
            assert(c * cap + k < b * cap + j) by (nonlinear_arith)
                requires
                    c < b,
                    0 <= k < cap,
                    0 <= j,
            ;
        }
    }
}

impl InvertedIndex {
    pub closed spec fn wf(&self) -> bool {
        &&& self.cap > 0
        &&& self.lens@.len() == self.kinds@.len()
        &&& self.flat@.len() == self.kinds@.len() * self.cap
        &&& forall|b: int|
            0 <= b < self.kinds@.len() ==> match #[trigger] self.kinds@[b] {
                BucketList::Inline => self.lens@[b] <= self.cap,
                BucketList::Spilled(v) => self.lens@[b] == v@.len(),
            }
    }

    /// The positions of bucket `b`.
    pub closed spec fn list(&self, b: int) -> Seq<usize> {
        match self.kinds@[b] {
            BucketList::Inline => self.flat@.subrange(b * self.cap, b * self.cap + self.lens@[b]),
            BucketList::Spilled(v) => v@,
        }
    }

    /// The position lists of all buckets.
    pub closed spec fn lists(&self) -> Seq<Seq<usize>> {
        Seq::new(self.kinds@.len(), |b: int| self.list(b))
    }

    proof fn lemma_list_len(&self, b: int)
        requires
            self.wf(),
            0 <= b < self.kinds@.len(),
        ensures
            self.list(b).len() == self.lens@[b],
    {
        match self.kinds@[b] {
            BucketList::Inline => {
                lemma_slot(b, 0, b, 0, self.cap as int, self.kinds@.len() as int);
            },
            BucketList::Spilled(v) => {},
        }
    }

    /// `buckets` empty lists, each with an inline slot of `cap` entries.
    pub fn new(buckets: usize, cap: usize) -> (r: InvertedIndex)
        requires
            cap > 0,
            buckets * cap <= usize::MAX,
        ensures
            r.wf(),
            r.lists().len() == buckets,
            forall|b: int| 0 <= b < buckets ==> (#[trigger] r.lists()[b]) == Seq::<usize>::empty(),
    {
        let total: usize = buckets * cap;
        let mut flat: Vec<usize> = Vec::new();
        let mut i: usize = 0;
        while i < total
            invariant
                i <= total,
                flat@.len() == i,
            decreases total - i,
        {
            flat.push(0);
            i = i + 1;
        }
        let mut lens: Vec<usize> = Vec::new();
        let mut kinds: Vec<BucketList> = Vec::new();
        let mut b: usize = 0;
        while b < buckets
            invariant
                b <= buckets,
                lens@.len() == b,
                kinds@.len() == b,
                forall|c: int| 0 <= c < b ==> #[trigger] lens@[c] == 0,
                forall|c: int| 0 <= c < b ==> #[trigger] kinds@[c] is Inline,
            decreases buckets - b,
        {
            lens.push(0);
            kinds.push(BucketList::Inline);
            b = b + 1;
        }
        let r = InvertedIndex { cap, flat, lens, kinds };
        assert forall|c: int| 0 <= c < buckets implies (#[trigger] r.lists()[c]) == Seq::<usize>::empty() by {
            lemma_slot(c, 0, c, 0, cap as int, buckets as int);
            assert(r.list(c).len() == 0);
        }
        r
    }

    /// The number of buckets.
    pub fn buckets(&self) -> (n: usize)
        requires
            self.wf(),
        ensures
            n == self.lists().len(),
    {
        self.kinds.len()
    }

    /// The number of positions in bucket `b`.
    pub fn len_of(&self, b: usize) -> (n: usize)
        requires
            self.wf(),
            b < self.lists().len(),
        ensures
            n == self.lists()[b as int].len(),
    {
        proof {
            self.lemma_list_len(b as int);
        }
        self.lens[b]
    }

    /// A copy of the positions of bucket `b`.
    pub fn list_of(&self, b: usize) -> (v: Vec<usize>)
        requires
            self.wf(),
            b < self.lists().len(),
        ensures
            v@ == self.lists()[b as int],
    {
        match &self.kinds[b] {
            BucketList::Inline => {
                let len = self.lens[b];
                let fl = self.flat.len();
                proof {
                    lemma_slot(b as int, 0, b as int, 0, self.cap as int, self.kinds@.len() as int);
                }
                let start = b * self.cap;
                let mut v: Vec<usize> = Vec::new();
                let mut j: usize = 0;
                while j < len
                    invariant
                        j <= len,
                        fl == self.flat@.len(),
                        start + len <= self.flat@.len(),
                        v@ == self.flat@.subrange(start as int, start + j),
                    decreases len - j,
                {
                    v.push(self.flat[start + j]);
                    j = j + 1;
                    assert(v@ == self.flat@.subrange(start as int, start + j));
                }
                v
            },
            BucketList::Spilled(v) => v.clone(),
        }
    }

    /// Appends `pos` to bucket `b`; a full slot first moves to a list of its own.
    pub fn push(&mut self, b: usize, pos: usize)
        requires
            old(self).wf(),
            b < old(self).lists().len(),
            old(self).lists()[b as int].len() < usize::MAX,
        ensures
            final(self).wf(),
            final(self).lists() == old(self).lists().update(b as int, old(self).lists()[b as int].push(pos)),
    {
        let ghost before = self.lists();
        proof {
            self.lemma_list_len(b as int);
        }
        let len = self.lens[b];
        let cap = self.cap;
        let n = self.kinds.len();
        let spilled = match &self.kinds[b] {
            BucketList::Inline => false,
            BucketList::Spilled(_) => true,
        };
        if !spilled && len < cap {
            let fl = self.flat.len();
            proof {
                lemma_slot(b as int, len as int, b as int, len as int, cap as int, n as int);
            }
            let at = b * cap + len;
            self.flat.set(at, pos);
            self.lens.set(b, len + 1);
            proof {
                assert forall|c: int| 0 <= c < n implies #[trigger] self.list(c) == if c == b {
                    before[b as int].push(pos)
                } else {
                    before[c]
                } by {
                    assert(before[c] == old(self).list(c));
                    if c == b {
                        assert(self.list(c) =~= old(self).list(c).push(pos));
                    } else {
                        match self.kinds@[c] {
                            BucketList::Inline => {
                                lemma_slot(c, 0, c, 0, cap as int, n as int);
                                assert forall|k: int| 0 <= k < self.lens@[c] implies #[trigger] self.list(c)[k]
                                    == old(self).list(c)[k] by {
                                    lemma_slot(c, k, b as int, len as int, cap as int, n as int);
                                }
                                assert(self.list(c) =~= old(self).list(c));
                            },
                            BucketList::Spilled(_) => {},
                        }
                    }
                }
                assert(self.lists() =~= before.update(b as int, before[b as int].push(pos)));
            }
        } else {
            let mut v = self.list_of(b);
            v.push(pos);
            let ghost vv = v@;
            self.kinds.set(b, BucketList::Spilled(v));
            self.lens.set(b, len + 1);
            proof {
                assert forall|c: int| 0 <= c < n implies #[trigger] self.list(c) == if c == b {
                    before[b as int].push(pos)
                } else {
                    before[c]
                } by {
                    assert(before[c] == old(self).list(c));
                }
                assert(self.lists() =~= before.update(b as int, before[b as int].push(pos)));
            }
        }
    }

    /// Replaces the positions of bucket `b` by `v`, back in the slot when they fit.
    pub fn set_list(&mut self, b: usize, v: Vec<usize>)
        requires
            old(self).wf(),
            b < old(self).lists().len(),
        ensures
            final(self).wf(),
            final(self).lists() == old(self).lists().update(b as int, v@),
    {
        let ghost before = self.lists();
        let cap = self.cap;
        let n = self.kinds.len();
        let len = v.len();
        if len <= cap {
            let fl = self.flat.len();
            proof {
                lemma_slot(b as int, 0, b as int, 0, cap as int, n as int);
            }
            let start = b * cap;
            let mut j: usize = 0;
            while j < len
                invariant
                    j <= len <= cap,
                    len == v@.len(),
                    fl == self.flat@.len(),
                    start + cap <= self.flat@.len(),
                    start == b * cap,
                    self.flat@.len() == old(self).flat@.len(),
                    self.cap == cap,
                    self.lens == old(self).lens,
                    self.kinds == old(self).kinds,
                    n == self.kinds@.len(),
                    b < n,
                    forall|k: int| 0 <= k < j ==> #[trigger] self.flat@[start + k] == v@[k],
                    forall|i: int|
                        0 <= i < self.flat@.len() && !(start <= i < start + j) ==> #[trigger] self.flat@[i]
                            == old(self).flat@[i],
                decreases len - j,
            {
                self.flat.set(start + j, v[j]);
                j = j + 1;
            }
            self.kinds.set(b, BucketList::Inline);
            self.lens.set(b, len);
            proof {
                assert forall|c: int| 0 <= c < n implies #[trigger] self.list(c) == if c == b {
                    v@
                } else {
                    before[c]
                } by {
                    assert(before[c] == old(self).list(c));
                    if c == b {
                        assert forall|k: int| 0 <= k < len implies #[trigger] self.list(c)[k] == v@[k] by {
                            assert(self.list(c)[k] == self.flat@[start + k]);
                        }
                        assert(self.list(c) =~= v@);
                    } else {
                        match self.kinds@[c] {
                            BucketList::Inline => {
                                lemma_slot(c, 0, c, 0, cap as int, n as int);
                                assert forall|k: int| 0 <= k < self.lens@[c] implies #[trigger] self.list(c)[k]
                                    == old(self).list(c)[k] by {
                                    lemma_slot(c, k, c, k, cap as int, n as int);
                                    if start <= c * cap + k < start + len {
                                        lemma_slot(c, k, b as int, c * cap + k - start, cap as int, n as int);
                                    }
                                }
                                assert(self.list(c) =~= old(self).list(c));
                            },
                            BucketList::Spilled(_) => {},
                        }
                    }
                }
                assert(self.lists() =~= before.update(b as int, v@));
            }
        } else {
            self.kinds.set(b, BucketList::Spilled(v));
            self.lens.set(b, len);
            proof {
                assert forall|c: int| 0 <= c < n implies #[trigger] self.list(c) == if c == b {
                    v@
                } else {
                    before[c]
                } by {
                    assert(before[c] == old(self).list(c));
                }
                assert(self.lists() =~= before.update(b as int, v@));
            }
        }
    }
}

} // verus!
