//! Scheme parameters and the shipped presets.

use vstd::prelude::*;
use vstd::arithmetic::power2::*;

verus! {

/// Named parameter presets. They are illustrative and make no security claim.
#[derive(Clone, Copy, Debug, PartialEq, Eq)]
pub enum SecurityLevel {
    /// q = 2^20, n = 8, m = 256, B = 1.
    Toy,
    /// q = 2^24, n = 24, m = 384, B = 2.
    Low,
    /// q = 2^26, n = 48, m = 768, B = 4.
    Medium,
}

/// LWE/GSW instance parameters.
#[derive(Clone, Copy, Debug)]
pub struct Params {
    /// Modulus q, a power of two.
    pub q: u64,
    /// Lattice dimension n.
    pub n: usize,
    /// l = log2(q).
    pub l: usize,
    /// N = (n + 1) * l, the gadget-expanded dimension.
    pub n_expanded: usize,
    /// Number of LWE samples (rows of the public matrix).
    pub m: usize,
    /// Errors are drawn uniformly from `[-error_bound, error_bound]`.
    pub error_bound: i64,
}

/// Under `wf`, q lies in `(0, 2^31]`.
pub proof fn lemma_wf_q_bounds(p: Params)
    requires
        p.wf(),
    ensures
        2 <= p.q <= 0x8000_0000,
        p.n + 1 <= p.n_expanded,
        p.l <= p.n_expanded,
{
    assert(1 * (p.n + 1) <= p.l * (p.n + 1)) by (nonlinear_arith)
        requires
            p.l >= 1,
    ;
    assert(p.l * 1 <= p.l * (p.n + 1)) by (nonlinear_arith)
        requires
            p.l >= 1,
    ;
    assert(p.l * (p.n + 1) == (p.n + 1) * p.l) by (nonlinear_arith);
    lemma2_to64();
    lemma_pow2_pos(p.l as nat);
    if p.l > 1 {
        lemma_pow2_strictly_increases(1, p.l as nat);
    }
    if p.l < 31 {
        lemma_pow2_strictly_increases(p.l as nat, 31);
    }
}

impl Params {
    /// The parameters are consistent: q = 2^l with l small enough that a
    /// product of two elements of Z_q fits a signed 64-bit word, and
    /// N = (n + 1) * l.
    pub open spec fn wf(&self) -> bool {
        &&& 1 <= self.l <= 31
        &&& self.q == pow2(self.l as nat)
        &&& self.n_expanded == (self.n + 1) * self.l
    }

    /// The (q, n, m, B) values of a preset.
    pub open spec fn preset(level: SecurityLevel) -> (u64, usize, usize, i64) {
        match level {
            SecurityLevel::Toy => (0x10_0000u64, 8usize, 256usize, 1i64),
            SecurityLevel::Low => (0x100_0000u64, 24usize, 384usize, 2i64),
            SecurityLevel::Medium => (0x400_0000u64, 48usize, 768usize, 4i64),
        }
    }

    /// Creates the parameters of a preset, with l and N derived from it.
    pub fn new(level: SecurityLevel) -> (p: Self)
        ensures
            p.wf(),
            (p.q, p.n, p.m, p.error_bound) == Self::preset(level),
            p.l == match level {
                SecurityLevel::Toy => 20usize,
                SecurityLevel::Low => 24usize,
                SecurityLevel::Medium => 26usize,
            },
    {
        let mut p = match level {
            SecurityLevel::Toy => Self { q: 0x10_0000, n: 8, m: 256, error_bound: 1, l: 0, n_expanded: 0 },
            SecurityLevel::Low => Self { q: 0x100_0000, n: 24, m: 384, error_bound: 2, l: 0, n_expanded: 0 },
            SecurityLevel::Medium => Self {
                q: 0x400_0000,
                n: 48,
                m: 768,
                error_bound: 4,
                l: 0,
                n_expanded: 0,
            },
        };
        let ghost e: nat = if p.q == 0x10_0000 { 20 } else if p.q == 0x100_0000 { 24 } else { 26 };
        proof {
            lemma2_to64();
            assert(p.q == pow2(e));
            assert forall|k: nat| #[trigger] pow2(k) <= p.q implies (p.n + 1) * k <= usize::MAX by {
                if k > 26 {
                    lemma_pow2_strictly_increases(26, k);
                }
                assert((p.n + 1) * k <= 49 * 26) by (nonlinear_arith)
                    requires
                        p.n + 1 <= 49,
                        k <= 26,
                ;
            }
        }
        p.with_derived();
        proof {
            let l = p.l as nat;
            if l < e {
                lemma_pow2_strictly_increases(l, e);
            } else if l > e {
                lemma_pow2_strictly_increases(e, l);
            }
            assert(l == e);
        }
        p
    }

    /// The Toy preset.
    pub fn toy() -> (p: Self)
        ensures
            p.wf(),
            (p.q, p.n, p.m, p.error_bound) == Self::preset(SecurityLevel::Toy),
            p.l == 20,
            p.n_expanded == 180,
    {
        Self::new(SecurityLevel::Toy)
    }

    /// Sets l to log2(q) and N to (n + 1) * l, for q a power of two.
    fn with_derived(&mut self)
        requires
            exists|k: nat| old(self).q == pow2(k),
            forall|k: nat| #[trigger] pow2(k) <= old(self).q ==> (old(self).n + 1) * k <= usize::MAX,
        ensures
            final(self).q == old(self).q,
            final(self).n == old(self).n,
            final(self).m == old(self).m,
            final(self).error_bound == old(self).error_bound,
            pow2(final(self).l as nat) == final(self).q,
            final(self).l < 64,
            final(self).n_expanded == (final(self).n + 1) * final(self).l,
    {
        let mut l: usize = 0;
        let mut p: u64 = 1;
        proof {
            lemma2_to64();
            lemma2_to64_rest();
            let k = choose|k: nat| old(self).q == pow2(k);
            lemma_pow2_pos(k);
        }
        while p <= self.q / 2
            invariant
                p as nat == pow2(l as nat),
                1 <= p <= self.q,
                l < 64,
                self.q == old(self).q,
            decreases self.q - p,
        {
            proof {
                lemma_pow2_unfold(l as nat + 1);
                if l == 63 {
                    lemma2_to64_rest();
                    assert(p == 0x8000_0000_0000_0000u64);
                }
            }
            p = p * 2;
            l = l + 1;
        }
        proof {
            lemma_pow2_unfold(l as nat + 1);
            let k = choose|k: nat| old(self).q == pow2(k);
            if k < l {
                lemma_pow2_strictly_increases(k, l as nat);
            } else if k > l {
                if k > l + 1 {
                    lemma_pow2_strictly_increases(l as nat + 1, k);
                }
            }
            assert(pow2(l as nat) <= old(self).q);
            assert((self.n + 1) * l <= usize::MAX);
            assert(self.n * l + l == (self.n + 1) * l) by (nonlinear_arith);
            assert(self.n * l <= self.n * l + l) by (nonlinear_arith)
                requires
                    l >= 0,
            ;
        }
        self.l = l;
        self.n_expanded = self.n * l + l;
    }
}

} // verus!
