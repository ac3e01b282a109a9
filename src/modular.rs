//! Modular arithmetic in Z_q.

use vstd::prelude::*;
use vstd::arithmetic::div_mod::*;
use vstd::arithmetic::power2::*;
use vstd::bits::*;
use crate::params::{lemma_wf_q_bounds, Params};

verus! {

/// What a truncating remainder by `q` leaves is congruent to its argument.
proof fn lemma_trunc_rem_congruent(val: int, q: int)
    requires
        q > 0,
    ensures
        (if val >= 0 { val % q } else { -((-val) % q) }) % q == val % q,
        (if val >= 0 { val % q } else { -((-val) % q) }) > -q,
        (if val >= 0 { val % q } else { -((-val) % q) }) < q,
        val < 0 ==> (if val >= 0 { val % q } else { -((-val) % q) }) <= 0,
{
    if val < 0 {
        let a = -val;
        lemma_fundamental_div_mod(a, q);
        lemma_mod_multiples_vanish(a / q, val, q);
        assert(-(a % q) == q * (a / q) + val);
    } else {
        lemma_mod_mod(val, q, 1);
    }
}

/// Adding or removing one `q` keeps the residue.
proof fn lemma_shift_by_q(x: int, q: int)
    requires
        q > 0,
    ensures
        (x + q) % q == x % q,
        (x - q) % q == x % q,
{
    lemma_mod_multiples_vanish(1, x, q);
    lemma_mod_multiples_vanish(-1, x, q);
}

/// Reduces `val` to its canonical representative in `[0, q)` (Euclidean modulo).
pub fn mod_q(val: i64, q: u64) -> (r: u64)
    requires
        0 < q <= i64::MAX,
    ensures
        r as int == (val as int) % (q as int),
        r < q,
{
    let qi = q as i64;
    let mut r = val % qi;
    proof {
        lemma_trunc_rem_congruent(val as int, q as int);
        lemma_shift_by_q(r as int, q as int);
    }
    if r < 0 {
        r += qi;
    }
    proof {
        lemma_small_mod(r as nat, q as nat);
    }
    r as u64
}

/// Reduces `val` to a representative congruent to it modulo `q`; for an even
/// `q` the representative lies in `(-q/2, q/2]`.
pub fn mod_q_centered(val: i64, q: u64) -> (r: i64)
    requires
        0 < q <= i64::MAX,
    ensures
        (r as int) % (q as int) == (val as int) % (q as int),
        q % 2 == 0 ==> -((q / 2) as int) < r <= q / 2,
{
    let qi = q as i64;
    let mut r = val % qi;
    proof {
        lemma_trunc_rem_congruent(val as int, q as int);
        lemma_shift_by_q(r as int, q as int);
    }
    if r > qi / 2 {
        r -= qi;
    } else if r <= -qi / 2 {
        r += qi;
    }
    r
}

/// Reduces `x` mod q by masking its low l bits (q = 2^l).
pub fn reduce(x: u64, params: &Params) -> (r: u64)
    requires
        params.wf(),
    ensures
        r as int == (x as int) % (params.q as int),
        r < params.q,
{
    proof {
        lemma_wf_q_bounds(*params);
        lemma_u64_low_bits_mask_is_mod(x, params.l as nat);
    }
    x & (params.q - 1)
}

} // verus!
