use vstd::prelude::*;
use crate::group::CurveGroup;

verus! {

/// The order of the residue group: the Mersenne prime 2^61 - 1.
pub const GROUP_ORDER: u64 = 2305843009213693951;

/// An element of the cyclic group of prime order `GROUP_ORDER`, written
/// additively: the multiple of a fixed generator that a point of a prime-order
/// curve group stands for.
#[derive(Clone, Copy, Debug, PartialEq, Eq, Structural)]
pub struct Residue {
    pub value: u64,
}

impl Residue {
    /// The residue of `x` modulo the group order.
    pub fn new(x: u64) -> (r: Residue)
        ensures
            r.value == x % GROUP_ORDER,
            r.valid(),
    {
        Residue { value: x % GROUP_ORDER }
    }

    /// The negation of a residue.
    pub fn neg(&self) -> (r: Residue)
        requires
            self.valid(),
        ensures
            r.valid(),
            r.plus(*self) == Residue::identity(),
    {
        if self.value == 0 {
            Residue { value: 0 }
        } else {
            Residue { value: GROUP_ORDER - self.value }
        }
    }
}

impl CurveGroup for Residue {
    open spec fn valid(self) -> bool {
        self.value < GROUP_ORDER
    }

    open spec fn plus(self, other: Self) -> Self {
        Residue { value: ((self.value as int + other.value as int) % (GROUP_ORDER as int)) as u64 }
    }

    open spec fn identity() -> Self {
        Residue { value: 0 }
    }

    proof fn lemma_identity_valid() {
    }

    proof fn lemma_plus_valid(a: Self, b: Self) {
    }

    proof fn lemma_plus_assoc(a: Self, b: Self, c: Self) {
        let q = GROUP_ORDER as int;
        let (x, y, z) = (a.value as int, b.value as int, c.value as int);
        vstd::arithmetic::div_mod::lemma_add_mod_noop(x + y, z, q);
        vstd::arithmetic::div_mod::lemma_add_mod_noop(x, y + z, q);
        vstd::arithmetic::div_mod::lemma_mod_twice(x + y, q);
        vstd::arithmetic::div_mod::lemma_mod_twice(y + z, q);
        vstd::arithmetic::div_mod::lemma_small_mod(z as nat, q as nat);
        vstd::arithmetic::div_mod::lemma_small_mod(x as nat, q as nat);
        assert((x + y) + z == x + (y + z));
    }

    proof fn lemma_plus_comm(a: Self, b: Self) {
        assert(a.value as int + b.value as int == b.value as int + a.value as int);
    }

    proof fn lemma_plus_identity(a: Self) {
        vstd::arithmetic::div_mod::lemma_small_mod(a.value as nat, GROUP_ORDER as nat);
    }

    fn zero() -> (r: Self) {
        Residue { value: 0 }
    }

    fn is_valid(&self) -> (b: bool) {
        self.value < GROUP_ORDER
    }

    fn add(&self, other: &Self) -> (r: Self) {
        Residue { value: (self.value + other.value) % GROUP_ORDER }
    }

    fn double(&self) -> (r: Self) {
        Residue { value: (self.value + self.value) % GROUP_ORDER }
    }
}

} // verus!
