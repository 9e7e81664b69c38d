use vstd::prelude::*;

verus! {

/// The vector-extension tiers of the processor, narrowest first.
#[derive(Debug, Clone, Copy, PartialEq, Eq)]
pub struct SimdCapabilities {
    pub sse2_available: bool,
    pub avx2_available: bool,
    pub avx512_available: bool,
}

/// The implementation a kernel call runs on.
#[derive(Debug, Clone, Copy, PartialEq, Eq)]
pub enum Tier {
    Scalar,
    Sse2,
    Avx2,
    Avx512,
}

/// Number of double-precision lanes of a tier.
pub open spec fn spec_lanes(t: Tier) -> nat {
    match t {
        Tier::Scalar => 1,
        Tier::Sse2 => 2,
        Tier::Avx2 => 4,
        Tier::Avx512 => 8,
    }
}

impl Tier {
    pub fn lanes(&self) -> (r: usize)
        ensures
            r == spec_lanes(*self),
    {
        match self {
            Tier::Scalar => 1,
            Tier::Sse2 => 2,
            Tier::Avx2 => 4,
            Tier::Avx512 => 8,
        }
    }
}

impl SimdCapabilities {
    /// The widest tier present.
    pub open spec fn spec_sum_tier(self) -> Tier {
        if self.avx512_available {
            Tier::Avx512
        } else if self.avx2_available {
            Tier::Avx2
        } else if self.sse2_available {
            Tier::Sse2
        } else {
            Tier::Scalar
        }
    }

    /// A capability set with no vector tier: every kernel runs scalar.
    pub fn scalar_only() -> (r: Self)
        ensures
            !r.sse2_available && !r.avx2_available && !r.avx512_available,
    {
        SimdCapabilities { sse2_available: false, avx2_available: false, avx512_available: false }
    }

    pub fn sum_tier(&self) -> (r: Tier)
        ensures
            r == self.spec_sum_tier(),
    {
        if self.avx512_available {
            Tier::Avx512
        } else if self.avx2_available {
            Tier::Avx2
        } else if self.sse2_available {
            Tier::Sse2
        } else {
            Tier::Scalar
        }
    }
}

/// Where the lane-wide part of a summation ends: the largest multiple of
/// `lanes` not above `len`. Elements from there on are added one by one.
pub fn bulk_end(len: usize, lanes: usize) -> (r: usize)
    requires
        lanes > 0,
    ensures
        r == len - len % lanes,
        r <= len,
        r % lanes == 0,
        len - r < lanes,
{
    proof {
        let q = len as int / lanes as int;
        vstd::arithmetic::div_mod::lemma_fundamental_div_mod(len as int, lanes as int);
        vstd::arithmetic::div_mod::lemma_mod_bound(len as int, lanes as int);
        vstd::arithmetic::div_mod::lemma_mod_multiples_basic(q, lanes as int);
        assert(lanes * q == q * lanes) by (nonlinear_arith);
    }
    len - len % lanes
}

} // verus!
