//! Gadget algebra: BitDecomp, BitDecompInverse, Flatten and PowersOf2, on
//! vectors and row by row on matrices.
//!
//! A vector of length k over Z_q is expanded to length k * l: entry
//! j * l + i of the expansion belongs to entry j and to the weight 2^i.

use vstd::prelude::*;
use vstd::arithmetic::div_mod::*;
use vstd::arithmetic::mul::*;
use vstd::arithmetic::power2::*;
use vstd::bits::*;
use crate::linalg::dot_prefix;
use crate::modular::{mod_q, reduce};
use crate::params::Params;

verus! {

/// Bit `i` of the natural number `x`.
pub open spec fn bit_of(x: int, i: nat) -> int {
    (x / (pow2(i) as int)) % 2
}

/// Entry `j * l + i` is bit `i` of `v[j]`.
pub open spec fn bit_decomp_spec(v: Seq<u64>, l: nat) -> Seq<u64> {
    Seq::new(v.len() * l, |k: int| bit_of(v[k / (l as int)] as int, (k % (l as int)) as nat) as u64)
}

/// The sum of `w[start + i] * 2^i` over `i < len`.
pub open spec fn gadget_sum(w: Seq<u64>, start: int, len: nat) -> int
    decreases len,
{
    if len == 0 {
        0
    } else {
        gadget_sum(w, start, (len - 1) as nat) + w[start + len - 1] * pow2((len - 1) as nat)
    }
}

/// Entry `j` is the sum of `w[j * l + i] * 2^i` over `i < l`, reduced mod q.
pub open spec fn bit_decomp_inverse_spec(w: Seq<u64>, l: nat, q: nat) -> Seq<u64> {
    Seq::new(w.len() / l, |j: int| (gadget_sum(w, j * l, l) % (q as int)) as u64)
}

/// BitDecomp after BitDecompInverse.
pub open spec fn flatten_spec(w: Seq<u64>, l: nat, q: nat) -> Seq<u64> {
    bit_decomp_spec(bit_decomp_inverse_spec(w, l, q), l)
}

/// Entry `j * l + i` is `b[j] * 2^i` mod q.
pub open spec fn powers_of_2_spec(b: Seq<u64>, l: nat, q: nat) -> Seq<u64> {
    Seq::new(
        b.len() * l,
        |k: int| ((b[k / (l as int)] * pow2((k % (l as int)) as nat)) % (q as int)) as u64,
    )
}

/// Every entry is below `q`.
pub open spec fn all_below(v: Seq<u64>, q: nat) -> bool {
    forall|k: int| 0 <= k < v.len() ==> #[trigger] v[k] < q
}

/// A matrix stored as a vector of rows, seen as a sequence of sequences.
pub open spec fn rows_view(m: Seq<Vec<u64>>) -> Seq<Seq<u64>> {
    m.map_values(|r: Vec<u64>| r@)
}

/// Every entry of every row is below `q`.
pub open spec fn rows_below(m: Seq<Seq<u64>>, q: nat) -> bool {
    forall|i: int| 0 <= i < m.len() ==> all_below(#[trigger] m[i], q)
}

/// BitDecomp of each row.
pub open spec fn bit_decomp_rows(m: Seq<Seq<u64>>, l: nat) -> Seq<Seq<u64>> {
    m.map_values(|r: Seq<u64>| bit_decomp_spec(r, l))
}

/// Flatten of each row.
pub open spec fn flatten_rows(m: Seq<Seq<u64>>, l: nat, q: nat) -> Seq<Seq<u64>> {
    m.map_values(|r: Seq<u64>| flatten_spec(r, l, q))
}

/// Position `j * l + i` of an expansion splits back into `j` and `i`.
pub proof fn lemma_index_split(j: int, i: int, l: int)
    requires
        0 <= i < l,
        0 <= j,
    ensures
        (j * l + i) / l == j,
        (j * l + i) % l == i,
{
    lemma_fundamental_div_mod_converse(j * l + i, l, j, i);
}

/// A position below `k * l` lies in a block below `k`.
pub proof fn lemma_block_index_bound(j: int, i: int, l: int, k: int)
    requires
        0 <= i < l,
        0 <= j < k,
    ensures
        j * l + i < k * l,
        0 <= j * l,
{
    lemma_mul_inequality(j + 1, k, l);
    lemma_mul_nonnegative(j, l);
    lemma_mul_is_distributive_add_other_way(l, j, 1);
}

/// A bit of a number is 0 or 1.
pub proof fn lemma_bit_of_is_bit(x: int, i: nat)
    requires
        0 <= x,
    ensures
        0 <= bit_of(x, i) <= 1,
{
    lemma_pow2_pos(i);
}

/// The bits of an expansion are 0 or 1, and the length is k * l.
pub proof fn lemma_bit_decomp_bits(v: Seq<u64>, l: nat)
    ensures
        bit_decomp_spec(v, l).len() == v.len() * l,
        all_below(bit_decomp_spec(v, l), 2),
{
    assert forall|k: int| 0 <= k < bit_decomp_spec(v, l).len() implies #[trigger] bit_decomp_spec(
        v,
        l,
    )[k] < 2 by {
        lemma_bit_of_is_bit(v[k / (l as int)] as int, (k % (l as int)) as nat);
    }
}

/// The sum of `l` entries below `q`, weighted by powers of two, is below `q * 2^len`.
proof fn lemma_gadget_sum_bound(w: Seq<u64>, start: int, len: nat, q: nat)
    requires
        0 <= start,
        start + len <= w.len(),
        forall|k: int| start <= k < start + len ==> #[trigger] w[k] < q,
    ensures
        0 <= gadget_sum(w, start, len) <= (q as int - 1) * (pow2(len) - 1),
    decreases len,
{
    if len == 0 {
        lemma2_to64();
    } else {
        let p = pow2((len - 1) as nat) as int;
        lemma_gadget_sum_bound(w, start, (len - 1) as nat, q);
        lemma_pow2_unfold(len);
        lemma_pow2_pos((len - 1) as nat);
        let x = w[start + len - 1] as int;
        assert(x * p <= (q - 1) * p) by (nonlinear_arith)
            requires
                x <= q - 1,
                p > 0,
        ;
        assert(0 <= x * p) by (nonlinear_arith)
            requires
                x >= 0,
                p > 0,
        ;
        assert((q as int - 1) * (p - 1) + (q - 1) * p == (q as int - 1) * (2 * p - 1)) by (nonlinear_arith);
        assert(gadget_sum(w, start, len) == gadget_sum(w, start, (len - 1) as nat) + x * p);
    }
}

/// Powers of two grow with the exponent.
pub proof fn lemma_pow2_mono(a: nat, b: nat)
    requires
        a <= b,
    ensures
        pow2(a) <= pow2(b),
{
    if a < b {
        lemma_pow2_strictly_increases(a, b);
    }
}

/// `q = 2^l` with `l <= 31` stays below 2^31, and so do its powers of two below `l`.
pub proof fn lemma_params_bounds(params: &Params, i: nat)
    requires
        params.wf(),
        i <= params.l,
    ensures
        pow2(i) <= params.q <= 0x8000_0000,
        params.q > 0,
{
    lemma2_to64();
    lemma_pow2_mono(i, params.l as nat);
    lemma_pow2_mono(params.l as nat, 31);
    lemma_pow2_pos(params.l as nat);
}

/// A whole number of blocks of length `l` fits in a sequence of length `len`.
proof fn lemma_blocks_fit(len: int, l: int)
    requires
        0 <= len,
        0 < l,
    ensures
        (len / l) * l <= len,
        0 <= len / l,
{
    lemma_fundamental_div_mod(len, l);
    lemma_mul_is_commutative(len / l, l);
    lemma_div_pos_is_pos(len, l);
    lemma_mod_pos_bound(len, l);
}

/// `len * l`, or 0 when that does not fit a `usize`: a capacity to reserve.
fn expanded_len(len: usize, l: usize) -> (r: usize)
    requires
        l > 0,
{
    if len <= usize::MAX / l {
        proof {
            lemma_fundamental_div_mod(usize::MAX as int, l as int);
            lemma_mul_inequality(len as int, usize::MAX as int / l as int, l as int);
            lemma_mod_pos_bound(usize::MAX as int, l as int);
            lemma_mul_is_commutative(l as int, usize::MAX as int / l as int);
        }
        len * l
    } else {
        0
    }
}

/// BitDecomp: entry `j * l + i` of the result is bit `i` of `v[j]`.
pub fn bit_decomp(v: &[u64], params: &Params) -> (r: Vec<u64>)
    requires
        params.wf(),
    ensures
        r@ == bit_decomp_spec(v@, params.l as nat),
{
    let l = params.l;
    let ghost spec_r = bit_decomp_spec(v@, l as nat);
    let mut result: Vec<u64> = Vec::with_capacity(expanded_len(v.len(), l));
    let mut j: usize = 0;
    while j < v.len()
        invariant
            params.wf(),
            l == params.l,
            spec_r == bit_decomp_spec(v@, l as nat),
            0 <= j <= v@.len(),
            result@.len() == j * l,
            forall|k: int| 0 <= k < j * l ==> #[trigger] result@[k] == spec_r[k],
        decreases v@.len() - j,
    {
        let vi = v[j];
        let mut i: usize = 0;
        while i < l
            invariant
                params.wf(),
                l == params.l,
                spec_r == bit_decomp_spec(v@, l as nat),
                0 <= j < v@.len(),
                vi == v@[j as int],
                0 <= i <= l,
                result@.len() == j * l + i,
                forall|k: int| 0 <= k < j * l + i ==> #[trigger] result@[k] == spec_r[k],
            decreases l - i,
        {
            let b = (vi >> i as u64) & 1;
            proof {
                lemma_u64_shr_is_div(vi, i as u64);
                let s = vi >> i as u64;
                assert(s & 1 == s % 2) by (bit_vector);
                lemma_index_split(j as int, i as int, l as int);
                lemma_block_index_bound(j as int, i as int, l as int, v@.len() as int);
                lemma_mul_is_distributive_add_other_way(l as int, j as int, 1);
            }
            result.push(b);
            i = i + 1;
        }
        proof {
            lemma_mul_is_distributive_add_other_way(l as int, j as int, 1);
        }
        j = j + 1;
    }
    proof {
        assert(result@ =~= spec_r);
    }
    result
}

/// BitDecompInverse: entry `j` of the result is the sum of `bits[j * l + i] * 2^i`
/// over `i < l`, reduced mod q. Entries above 1 (carries of an addition) count
/// with their full value.
pub fn bit_decomp_inverse(bits: &[u64], params: &Params) -> (r: Vec<u64>)
    requires
        params.wf(),
        all_below(bits@, params.q as nat),
    ensures
        r@ == bit_decomp_inverse_spec(bits@, params.l as nat, params.q as nat),
{
    let l = params.l;
    let blen = bits.len();
    let k = blen / l;
    let q = params.q;
    let ghost spec_r = bit_decomp_inverse_spec(bits@, l as nat, q as nat);
    proof {
        lemma_blocks_fit(bits@.len() as int, l as int);
        lemma_params_bounds(params, l as nat);
    }
    let mut result: Vec<u64> = Vec::with_capacity(k);
    let mut j: usize = 0;
    while j < k
        invariant
            params.wf(),
            l == params.l,
            q == params.q,
            0 < q <= 0x8000_0000,
            k as int == bits@.len() as int / (l as int),
            k * l <= bits@.len(),
            blen == bits@.len(),
            all_below(bits@, q as nat),
            spec_r == bit_decomp_inverse_spec(bits@, l as nat, q as nat),
            0 <= j <= k,
            result@.len() == j,
            forall|t: int| 0 <= t < j ==> #[trigger] result@[t] == spec_r[t],
        decreases k - j,
    {
        let mut sum: u64 = 0;
        let mut p: u64 = 1;
        let mut i: usize = 0;
        proof {
            lemma2_to64();
        }
        while i < l
            invariant
                params.wf(),
                l == params.l,
                q == params.q,
                0 < q <= 0x8000_0000,
                k * l <= bits@.len(),
                blen == bits@.len(),
                all_below(bits@, q as nat),
                0 <= j < k,
                0 <= i <= l,
                p == pow2(i as nat),
                sum == gadget_sum(bits@, j * l, i as nat),
                sum <= 0x4000_0000_0000_0000,
                spec_r == bit_decomp_inverse_spec(bits@, l as nat, q as nat),
                result@.len() == j,
                forall|t: int| 0 <= t < j ==> #[trigger] result@[t] == spec_r[t],
            decreases l - i,
        {
            proof {
                lemma_block_index_bound(j as int, i as int, l as int, k as int);
                lemma_params_bounds(params, i as nat);
                lemma_params_bounds(params, (i + 1) as nat);
                lemma_pow2_unfold((i + 1) as nat);
                lemma_gadget_sum_bound(bits@, j * l, (i + 1) as nat, q as nat);
                let x = bits@[j * l + i] as int;
                let g = gadget_sum(bits@, j * l, (i + 1) as nat);
                assert(g <= (q - 1) * (q - 1)) by (nonlinear_arith)
                    requires
                        g <= (q - 1) * (pow2((i + 1) as nat) - 1),
                        pow2((i + 1) as nat) <= q,
                        q >= 1,
                ;
                assert((q - 1) * (q - 1) <= 0x8000_0000 * 0x8000_0000) by (nonlinear_arith)
                    requires
                        1 <= q <= 0x8000_0000,
                ;
                assert(x * p <= 0x8000_0000 * 0x8000_0000) by (nonlinear_arith)
                    requires
                        0 <= x < q,
                        q <= 0x8000_0000,
                        p <= 0x8000_0000,
                ;
                assert(j * l + i < bits@.len());
            }
            sum = sum + bits[j * l + i] * p;
            p = p * 2;
            i = i + 1;
        }
        let e = reduce(sum, params);
        result.push(e);
        j = j + 1;
    }
    proof {
        assert(result@ =~= spec_r);
    }
    result
}

/// Flatten: BitDecomp of BitDecompInverse, so that every entry is a bit again.
pub fn flatten(v: &[u64], params: &Params) -> (r: Vec<u64>)
    requires
        params.wf(),
        all_below(v@, params.q as nat),
    ensures
        r@ == flatten_spec(v@, params.l as nat, params.q as nat),
{
    let decomposed = bit_decomp_inverse(v, params);
    bit_decomp(decomposed.as_slice(), params)
}

/// PowersOf2: entry `j * l + i` of the result is `b[j] * 2^i` mod q.
pub fn powers_of_2(b: &[u64], params: &Params) -> (r: Vec<u64>)
    requires
        params.wf(),
        all_below(b@, params.q as nat),
    ensures
        r@ == powers_of_2_spec(b@, params.l as nat, params.q as nat),
{
    let l = params.l;
    let q = params.q;
    let ghost spec_r = powers_of_2_spec(b@, l as nat, q as nat);
    proof {
        lemma_params_bounds(params, l as nat);
    }
    let mut result: Vec<u64> = Vec::with_capacity(expanded_len(b.len(), l));
    let mut j: usize = 0;
    while j < b.len()
        invariant
            params.wf(),
            l == params.l,
            q == params.q,
            0 < q <= 0x8000_0000,
            all_below(b@, q as nat),
            spec_r == powers_of_2_spec(b@, l as nat, q as nat),
            0 <= j <= b@.len(),
            result@.len() == j * l,
            forall|k: int| 0 <= k < j * l ==> #[trigger] result@[k] == spec_r[k],
        decreases b@.len() - j,
    {
        let bi = b[j];
        let mut p: u64 = 1;
        let mut i: usize = 0;
        proof {
            lemma2_to64();
        }
        while i < l
            invariant
                params.wf(),
                l == params.l,
                q == params.q,
                0 < q <= 0x8000_0000,
                spec_r == powers_of_2_spec(b@, l as nat, q as nat),
                0 <= j < b@.len(),
                bi == b@[j as int],
                bi < q,
                0 <= i <= l,
                p == pow2(i as nat),
                result@.len() == j * l + i,
                forall|k: int| 0 <= k < j * l + i ==> #[trigger] result@[k] == spec_r[k],
            decreases l - i,
        {
            proof {
                lemma_params_bounds(params, i as nat);
                lemma_params_bounds(params, (i + 1) as nat);
                lemma_pow2_unfold((i + 1) as nat);
                assert(bi * p <= 0x8000_0000 * 0x8000_0000) by (nonlinear_arith)
                    requires
                        bi < q,
                        q <= 0x8000_0000,
                        p <= 0x8000_0000,
                ;
                lemma_index_split(j as int, i as int, l as int);
                lemma_block_index_bound(j as int, i as int, l as int, b@.len() as int);
                lemma_mul_is_distributive_add_other_way(l as int, j as int, 1);
            }
            let e = mod_q((bi as i64) * (p as i64), q);
            result.push(e);
            p = p * 2;
            i = i + 1;
        }
        proof {
            lemma_mul_is_distributive_add_other_way(l as int, j as int, 1);
        }
        j = j + 1;
    }
    proof {
        assert(result@ =~= spec_r);
    }
    result
}

/// G^{-1} of a matrix: each row replaced by its BitDecomp.
pub fn g_inverse_matrix(matrix: &[Vec<u64>], params: &Params) -> (r: Vec<Vec<u64>>)
    requires
        params.wf(),
    ensures
        rows_view(r@) == bit_decomp_rows(rows_view(matrix@), params.l as nat),
{
    let mut result: Vec<Vec<u64>> = Vec::with_capacity(matrix.len());
    let mut i: usize = 0;
    while i < matrix.len()
        invariant
            params.wf(),
            0 <= i <= matrix@.len(),
            result@.len() == i,
            forall|t: int|
                0 <= t < i ==> (#[trigger] result@[t])@ == bit_decomp_spec(
                    matrix@[t]@,
                    params.l as nat,
                ),
        decreases matrix@.len() - i,
    {
        let decomp = bit_decomp(matrix[i].as_slice(), params);
        result.push(decomp);
        i = i + 1;
    }
    proof {
        assert(rows_view(result@) =~= bit_decomp_rows(rows_view(matrix@), params.l as nat));
    }
    result
}

/// Flatten of each row of a matrix.
pub fn flatten_matrix(matrix: &[Vec<u64>], params: &Params) -> (r: Vec<Vec<u64>>)
    requires
        params.wf(),
        rows_below(rows_view(matrix@), params.q as nat),
    ensures
        rows_view(r@) == flatten_rows(rows_view(matrix@), params.l as nat, params.q as nat),
{
    let mut result: Vec<Vec<u64>> = Vec::with_capacity(matrix.len());
    let mut i: usize = 0;
    while i < matrix.len()
        invariant
            params.wf(),
            rows_below(rows_view(matrix@), params.q as nat),
            0 <= i <= matrix@.len(),
            result@.len() == i,
            forall|t: int|
                0 <= t < i ==> (#[trigger] result@[t])@ == flatten_spec(
                    matrix@[t]@,
                    params.l as nat,
                    params.q as nat,
                ),
        decreases matrix@.len() - i,
    {
        assert(all_below(rows_view(matrix@)[i as int], params.q as nat));
        let flat = flatten(matrix[i].as_slice(), params);
        result.push(flat);
        i = i + 1;
    }
    proof {
        assert(rows_view(result@) =~= flatten_rows(
            rows_view(matrix@),
            params.l as nat,
            params.q as nat,
        ));
    }
    result
}

/// The sum of `a[base + i] * b[base + i]` over `i < len`.
pub open spec fn dot_range(a: Seq<u64>, b: Seq<u64>, base: int, len: nat) -> int
    decreases len,
{
    if len == 0 {
        0
    } else {
        dot_range(a, b, base, (len - 1) as nat) + a[base + len - 1] * b[base + len - 1]
    }
}

/// A dot product over `base + len` entries splits at `base`.
pub proof fn lemma_dot_split(a: Seq<u64>, b: Seq<u64>, base: nat, len: nat)
    ensures
        dot_prefix(a, b, base + len) == dot_prefix(a, b, base) + dot_range(a, b, base as int, len),
    decreases len,
{
    if len > 0 {
        lemma_dot_split(a, b, base, (len - 1) as nat);
    }
}

/// Within block `j`, the first `len` products of BitDecomp(v) and PowersOf2(s)
/// add up to `s[j] * (v[j] mod 2^len)`, mod q.
proof fn lemma_gadget_block(v: Seq<u64>, s: Seq<u64>, l: nat, q: nat, j: int, len: nat)
    requires
        l > 0,
        0 < q <= 0x8000_0000,
        v.len() == s.len(),
        0 <= j < v.len(),
        len <= l,
    ensures
        dot_range(bit_decomp_spec(v, l), powers_of_2_spec(s, l, q), j * l, len) % (q as int) == (
        s[j] * ((v[j] as int) % (pow2(len) as int))) % (q as int),
    decreases len,
{
    let x = v[j] as int;
    let y = s[j] as int;
    let qi = q as int;
    let bd = bit_decomp_spec(v, l);
    let po = powers_of_2_spec(s, l, q);
    lemma_pow2_pos(len);
    if len == 0 {
        lemma2_to64();
        assert(x % 1 == 0);
        lemma_small_mod(0, q);
    } else {
        let i = (len - 1) as nat;
        let p = pow2(i) as int;
        lemma_pow2_pos(i);
        lemma_gadget_block(v, s, l, q, j, i);
        lemma_index_split(j, i as int, l as int);
        lemma_block_index_bound(j, i as int, l as int, v.len() as int);
        let bit = bit_of(x, i);
        lemma_bit_of_is_bit(x, i);
        assert(bd[j * l + i] == bit);
        assert(po[j * l + i] == (y * p) % qi);
        let prev = dot_range(bd, po, j * l, i);
        assert(dot_range(bd, po, j * l, len) == prev + bit * ((y * p) % qi));
        // x mod 2^(i+1) = x mod 2^i + 2^i * bit
        lemma_pow2_unfold(len);
        lemma_mod_breakdown(x, p, 2);
        assert(x % (p * 2) == p * ((x / p) % 2) + x % p);
        lemma_mul_mod_noop_right(bit, y * p, qi);
        lemma_add_mod_noop(prev, bit * ((y * p) % qi), qi);
        lemma_add_mod_noop(y * (x % p), bit * (y * p), qi);
        assert(y * (x % (p * 2)) == y * (x % p) + bit * (y * p)) by (nonlinear_arith)
            requires
                x % (p * 2) == p * bit + x % p,
        ;
        let bb = bit * ((y * p) % qi);
        assert(prev % qi == (y * (x % p)) % qi);
        assert(bb % qi == (bit * (y * p)) % qi);
        assert((prev + bb) % qi == ((prev % qi) + (bb % qi)) % qi);
        assert((prev + bb) % qi == (y * (x % p) + bit * (y * p)) % qi);
        assert(pow2(len) as int == p * 2);
        assert((prev + bb) % qi == (y * (x % (p * 2))) % qi);
    }
}

/// Gadget identity: for every vector v over Z_q and every s of the same
/// length, <BitDecomp(v), PowersOf2(s)> = <v, s> (mod q).
pub proof fn lemma_gadget_identity(v: Seq<u64>, s: Seq<u64>, params: Params)
    requires
        params.wf(),
        v.len() == s.len(),
        all_below(v, params.q as nat),
    ensures
        dot_prefix(
            bit_decomp_spec(v, params.l as nat),
            powers_of_2_spec(s, params.l as nat, params.q as nat),
            (v.len() * params.l) as nat,
        ) % (params.q as int) == dot_prefix(v, s, v.len()) % (params.q as int),
{
    lemma_gadget_identity_prefix(v, s, params, v.len());
}

/// The gadget identity over the first `k` blocks.
proof fn lemma_gadget_identity_prefix(v: Seq<u64>, s: Seq<u64>, params: Params, k: nat)
    requires
        params.wf(),
        v.len() == s.len(),
        all_below(v, params.q as nat),
        k <= v.len(),
    ensures
        dot_prefix(
            bit_decomp_spec(v, params.l as nat),
            powers_of_2_spec(s, params.l as nat, params.q as nat),
            (k * params.l) as nat,
        ) % (params.q as int) == dot_prefix(v, s, k) % (params.q as int),
    decreases k,
{
    let l = params.l as nat;
    let q = params.q as nat;
    let qi = q as int;
    let bd = bit_decomp_spec(v, l);
    let po = powers_of_2_spec(s, l, q);
    lemma_params_bounds(&params, l);
    if k == 0 {
        assert(0 * l == 0);
    } else {
        let j = (k - 1) as nat;
        lemma_gadget_identity_prefix(v, s, params, j);
        lemma_mul_is_distributive_add_other_way(l as int, j as int, 1);
        lemma_mul_nonnegative(j as int, l as int);
        lemma_dot_split(bd, po, (j * l) as nat, l);
        lemma_gadget_block(v, s, l, q, j as int, l);
        lemma_small_mod(v[j as int] as nat, pow2(l));
        let a = dot_prefix(bd, po, j * l);
        let r = dot_range(bd, po, (j * l) as int, l);
        let b = dot_prefix(v, s, j);
        lemma_add_mod_noop(a, r, qi);
        lemma_add_mod_noop(b, v[j as int] * s[j as int], qi);
        lemma_mul_is_commutative(s[j as int] as int, v[j as int] as int);
    }
}

/// A run of bits, weighted by powers of two, has bit `i` equal to its entry `i`.
proof fn lemma_bits_of_gadget_sum(w: Seq<u64>, start: int, len: nat, i: nat)
    requires
        0 <= start,
        start + len <= w.len(),
        forall|k: int| start <= k < start + len ==> #[trigger] w[k] < 2,
        i < len,
    ensures
        bit_of(gadget_sum(w, start, len), i) == w[start + i],
    decreases len,
{
    let m = (len - 1) as nat;
    let g = gadget_sum(w, start, m);
    let x = w[start + m] as int;
    let pm = pow2(m) as int;
    let pi = pow2(i) as int;
    lemma_gadget_sum_bound(w, start, m, 2);
    lemma_pow2_pos(m);
    lemma_pow2_pos(i);
    assert(gadget_sum(w, start, len) == g + x * pm);
    if i < m {
        lemma_bits_of_gadget_sum(w, start, m, i);
        // 2^m = 2^i * 2 * 2^(m - i - 1)
        let e = (m - i - 1) as nat;
        lemma_pow2_adds(i, (m - i) as nat);
        lemma_pow2_unfold((m - i) as nat);
        let pe = pow2(e) as int;
        assert(pm == pi * (2 * pe));
        lemma_fundamental_div_mod(g, pi);
        lemma_mod_pos_bound(g, pi);
        let t = x * 2 * pe;
        assert(g + x * pm == (g / pi + t) * pi + g % pi) by (nonlinear_arith)
            requires
                g == pi * (g / pi) + g % pi,
                pm == pi * (2 * pe),
                t == x * 2 * pe,
        ;
        lemma_fundamental_div_mod_converse(g + x * pm, pi, g / pi + t, g % pi);
        lemma_mod_multiples_vanish(x * pe, g / pi, 2);
        assert(2 * (x * pe) + g / pi == g / pi + t) by (nonlinear_arith)
            requires
                t == x * 2 * pe,
        ;
    } else {
        assert(i == m);
        lemma_fundamental_div_mod_converse(g + x * pm, pm, x, g);
        lemma_small_mod(x as nat, 2);
    }
}

/// Flatten leaves a vector of bits whose length is a multiple of l unchanged.
pub proof fn lemma_flatten_of_bits(w: Seq<u64>, params: Params)
    requires
        params.wf(),
        (w.len() as int) % (params.l as int) == 0,
        all_below(w, 2),
    ensures
        flatten_spec(w, params.l as nat, params.q as nat) == w,
{
    let l = params.l as nat;
    let q = params.q as nat;
    let d = bit_decomp_inverse_spec(w, l, q);
    let f = flatten_spec(w, l, q);
    lemma_params_bounds(&params, l);
    lemma_blocks_fit(w.len() as int, l as int);
    lemma_fundamental_div_mod(w.len() as int, l as int);
    lemma_mul_is_commutative(w.len() as int / l as int, l as int);
    assert(f.len() == w.len());
    assert forall|k: int| 0 <= k < w.len() implies #[trigger] f[k] == w[k] by {
        let j = k / (l as int);
        let i = k % (l as int);
        lemma_fundamental_div_mod(k, l as int);
        lemma_mod_pos_bound(k, l as int);
        lemma_div_pos_is_pos(k, l as int);
        lemma_mul_is_commutative(j, l as int);
        let nb = w.len() as int / l as int;
        if j >= nb {
            lemma_mul_inequality(nb, j, l as int);
        }
        lemma_block_index_bound(j, i, l as int, nb);
        lemma_mul_inequality(j + 1, nb, l as int);
        lemma_mul_is_distributive_add_other_way(l as int, j, 1);
        lemma_index_split(j, i, l as int);
        lemma_gadget_sum_bound(w, j * l, l, 2);
        lemma_small_mod(gadget_sum(w, j * l, l) as nat, q);
        assert(d[j] as int == gadget_sum(w, j * l, l));
        lemma_bits_of_gadget_sum(w, j * l, l, i as nat);
    }
    assert(f =~= w);
}

/// Flatten is idempotent, and so commutes with BitDecomp after BitDecompInverse:
/// for every vector over Z_q, applying it twice equals applying it once.
pub proof fn lemma_flatten_idempotent(w: Seq<u64>, params: Params)
    requires
        params.wf(),
        all_below(w, params.q as nat),
    ensures
        flatten_spec(flatten_spec(w, params.l as nat, params.q as nat), params.l as nat, params.q as nat)
            == flatten_spec(w, params.l as nat, params.q as nat),
        bit_decomp_spec(bit_decomp_inverse_spec(flatten_spec(w, params.l as nat, params.q as nat), params.l as nat, params.q as nat), params.l as nat)
            == flatten_spec(bit_decomp_spec(bit_decomp_inverse_spec(w, params.l as nat, params.q as nat), params.l as nat), params.l as nat, params.q as nat),
{
    let l = params.l as nat;
    let q = params.q as nat;
    let d = bit_decomp_inverse_spec(w, l, q);
    let f = flatten_spec(w, l, q);
    lemma_params_bounds(&params, l);
    lemma_bit_decomp_bits(d, l);
    lemma_mod_multiples_basic(d.len() as int, l as int);
    lemma_flatten_of_bits(f, params);
}

} // verus!
