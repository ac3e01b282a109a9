//! Correctness of fresh encryptions, of the gates on them, and of
//! bootstrapping. With keys and masks of any draw, the decryption of an
//! encryption of a bit is that bit, as long as the LWE error summed over a
//! mask stays below a quarter of q. Over a noise-free evaluation key,
//! bootstrapping reproduces the clear linear part of decryption exactly.

use vstd::prelude::*;
use vstd::arithmetic::div_mod::*;
use vstd::arithmetic::mul::*;
use vstd::arithmetic::power2::*;
use crate::gadget::{
    all_below, bit_decomp_inverse_spec, bit_decomp_spec, dot_range, flatten_rows, flatten_spec,
    gadget_sum, lemma_bit_decomp_bits, lemma_block_index_bound, lemma_dot_split,
    lemma_gadget_identity, lemma_index_split, lemma_params_bounds, powers_of_2_spec, rows_view,
};
use crate::gsw::{
    add_to_entry, decrypt_spec, encrypt_spec, encryption_row, identity_minus,
    lemma_flatten_len_bits, sum_entries, valid_mask,
};
use crate::linalg::{col_dot, dot_prefix, mat_mul, row_times};
use crate::lwe::{keys_from_samples, public_row, secret_vector, valid_samples};
use crate::params::{Params, SecurityLevel};

verus! {

/// Congruent summands give congruent sums.
proof fn lemma_sum_congruent(a1: int, a2: int, b1: int, b2: int, q: int)
    requires
        q > 0,
        a1 % q == a2 % q,
        b1 % q == b2 % q,
    ensures
        (a1 + b1) % q == (a2 + b2) % q,
{
    lemma_add_mod_noop(a1, b1, q);
    lemma_add_mod_noop(a2, b2, q);
}

/// Within block `j`, `u` against PowersOf2(s) sums to `s[j]` times the
/// weighted sum of the block, mod q.
proof fn lemma_powers_block(u: Seq<u64>, s: Seq<u64>, l: nat, q: nat, j: int, len: nat)
    requires
        l > 0,
        0 < q <= 0x8000_0000,
        u.len() == s.len() * l,
        0 <= j < s.len(),
        len <= l,
    ensures
        dot_range(u, powers_of_2_spec(s, l, q), j * l, len) % (q as int) == (s[j] * gadget_sum(
            u,
            j * l,
            len,
        )) % (q as int),
    decreases len,
{
    let qi = q as int;
    let po = powers_of_2_spec(s, l, q);
    let y = s[j] as int;
    if len == 0 {
        lemma_small_mod(0, q);
    } else {
        let i = (len - 1) as nat;
        lemma_powers_block(u, s, l, q, j, i);
        lemma_index_split(j, i as int, l as int);
        lemma_block_index_bound(j, i as int, l as int, s.len() as int);
        let p = pow2(i) as int;
        let x = u[j * l + i] as int;
        let g = gadget_sum(u, j * l, i);
        let prev = dot_range(u, po, j * l, i);
        assert(po[j * l + i] == (y * p) % qi);
        lemma_mul_mod_noop_right(x, y * p, qi);
        lemma_sum_congruent(prev, y * g, x * ((y * p) % qi), x * (y * p), qi);
        assert(y * g + x * (y * p) == y * (g + x * p)) by (nonlinear_arith);
    }
}

/// `u` against PowersOf2(s) over the first `k` blocks equals BitDecompInverse(u)
/// against `s`, mod q.
proof fn lemma_powers_blocks(u: Seq<u64>, s: Seq<u64>, params: Params, k: nat)
    requires
        params.wf(),
        u.len() == s.len() * params.l,
        k <= s.len(),
    ensures
        dot_prefix(u, powers_of_2_spec(s, params.l as nat, params.q as nat), (k * params.l) as nat)
            % (params.q as int) == dot_prefix(
            bit_decomp_inverse_spec(u, params.l as nat, params.q as nat),
            s,
            k,
        ) % (params.q as int),
    decreases k,
{
    let l = params.l as nat;
    let q = params.q as nat;
    let qi = q as int;
    let po = powers_of_2_spec(s, l, q);
    let d = bit_decomp_inverse_spec(u, l, q);
    lemma_params_bounds(&params, l);
    if k == 0 {
        assert(0 * l == 0);
    } else {
        let j = (k - 1) as nat;
        lemma_powers_blocks(u, s, params, j);
        lemma_mul_is_distributive_add_other_way(l as int, j as int, 1);
        lemma_mul_nonnegative(j as int, l as int);
        lemma_dot_split(u, po, (j * l) as nat, l);
        lemma_powers_block(u, s, l, q, j as int, l);
        lemma_div_by_multiple(s.len() as int, l as int);
        let g = gadget_sum(u, (j * l) as int, l);
        assert(d[j as int] as int == g % qi);
        lemma_mul_mod_noop_right(s[j as int] as int, g, qi);
        lemma_mul_is_commutative(s[j as int] as int, g % qi);
        lemma_sum_congruent(
            dot_prefix(u, po, (j * l) as nat),
            dot_prefix(d, s, j),
            dot_range(u, po, (j * l) as int, l),
            d[j as int] * s[j as int],
            qi,
        );
    }
}

/// Flatten keeps a row's product with PowersOf2(s), mod q.
pub proof fn lemma_flatten_keeps_dot(u: Seq<u64>, s: Seq<u64>, params: Params)
    requires
        params.wf(),
        u.len() == s.len() * params.l,
    ensures
        dot_prefix(
            flatten_spec(u, params.l as nat, params.q as nat),
            powers_of_2_spec(s, params.l as nat, params.q as nat),
            (s.len() * params.l) as nat,
        ) % (params.q as int) == dot_prefix(
            u,
            powers_of_2_spec(s, params.l as nat, params.q as nat),
            (s.len() * params.l) as nat,
        ) % (params.q as int),
{
    let l = params.l as nat;
    let q = params.q as nat;
    let d = bit_decomp_inverse_spec(u, l, q);
    lemma_params_bounds(&params, l);
    lemma_div_by_multiple(s.len() as int, l as int);
    assert(d.len() == s.len());
    lemma_gadget_identity(d, s, params);
    lemma_powers_blocks(u, s, params, s.len());
}

/// Adding `bit` to entry `i` adds `bit * b[i]` to the product, mod q.
proof fn lemma_dot_add_to_entry(w: Seq<u64>, b: Seq<u64>, i: int, bit: int, q: nat, len: nat)
    requires
        0 < q <= 0x8000_0000,
        len <= w.len(),
        len <= b.len(),
        0 <= i,
        0 <= bit,
        forall|k: int| 0 <= k < w.len() ==> #[trigger] w[k] < q,
        bit < q,
    ensures
        dot_prefix(add_to_entry(w, i, bit, q), b, len) % (q as int) == (dot_prefix(w, b, len) + (
        if i < len {
            bit * b[i]
        } else {
            0
        })) % (q as int),
    decreases len,
{
    let qi = q as int;
    let u = add_to_entry(w, i, bit, q);
    if len > 0 {
        let k = len - 1;
        lemma_dot_add_to_entry(w, b, i, bit, q, (len - 1) as nat);
        let extra_prev = if i < k { bit * b[i] } else { 0 };
        if k == i {
            lemma_mul_mod_noop_left(w[k] + bit, b[k] as int, qi);
            lemma_sum_congruent(
                dot_prefix(u, b, (len - 1) as nat),
                dot_prefix(w, b, (len - 1) as nat) + extra_prev,
                u[k] * b[k],
                (w[k] + bit) * b[k],
                qi,
            );
            assert((w[k] + bit) * b[k] == w[k] * b[k] + bit * b[k]) by (nonlinear_arith);
        } else {
            lemma_sum_congruent(
                dot_prefix(u, b, (len - 1) as nat),
                dot_prefix(w, b, (len - 1) as nat) + extra_prev,
                u[k] * b[k],
                w[k] * b[k],
                qi,
            );
        }
    } else {
        lemma_small_mod(0, q);
    }
}

/// The sum over `j < c` of entry `j` of `r * A` (unreduced, over the first `rows`
/// rows of `A`) times `s[j]`.
pub open spec fn weighted_columns(r: Seq<u64>, a: Seq<Seq<u64>>, s: Seq<u64>, rows: nat, c: nat) -> int
    decreases c,
{
    if c == 0 {
        0
    } else {
        weighted_columns(r, a, s, rows, (c - 1) as nat) + col_dot(r, a, c - 1, rows) * s[c - 1]
    }
}

/// The sum over `k < rows` of `r[k]` times row `k` of `A` against `s`.
pub open spec fn mask_sum(r: Seq<u64>, a: Seq<Seq<u64>>, s: Seq<u64>, rows: nat, c: nat) -> int
    decreases rows,
{
    if rows == 0 {
        0
    } else {
        mask_sum(r, a, s, (rows - 1) as nat, c) + r[rows - 1] * dot_prefix(a[rows - 1], s, c)
    }
}

/// The sum over `k < rows` of `r[k] * e[k]`.
pub open spec fn error_sum(r: Seq<u64>, e: Seq<i64>, rows: nat) -> int
    decreases rows,
{
    if rows == 0 {
        0
    } else {
        error_sum(r, e, (rows - 1) as nat) + r[rows - 1] * e[rows - 1]
    }
}

/// Reducing the entries of `r * A` mod q keeps the product with `s`, mod q.
proof fn lemma_row_times_dot(r: Seq<u64>, a: Seq<Seq<u64>>, s: Seq<u64>, cols: nat, q: nat, c: nat)
    requires
        0 < q <= 0x8000_0000,
        c <= cols,
        c <= s.len(),
    ensures
        dot_prefix(row_times(r, a, cols, q), s, c) % (q as int) == weighted_columns(
            r,
            a,
            s,
            a.len(),
            c,
        ) % (q as int),
    decreases c,
{
    let qi = q as int;
    if c == 0 {
        lemma_small_mod(0, q);
    } else {
        let j = c - 1;
        lemma_row_times_dot(r, a, s, cols, q, (c - 1) as nat);
        let cd = col_dot(r, a, j, a.len());
        lemma_mul_mod_noop_left(cd, s[j] as int, qi);
        lemma_sum_congruent(
            dot_prefix(row_times(r, a, cols, q), s, (c - 1) as nat),
            weighted_columns(r, a, s, a.len(), (c - 1) as nat),
            row_times(r, a, cols, q)[j] * s[j],
            cd * s[j],
            qi,
        );
    }
}

/// One more row of `A` adds `r[rows] * <A[rows], s>`.
proof fn lemma_weighted_columns_step(r: Seq<u64>, a: Seq<Seq<u64>>, s: Seq<u64>, rows: nat, c: nat)
    ensures
        weighted_columns(r, a, s, rows + 1, c) == weighted_columns(r, a, s, rows, c) + r[rows as int]
            * dot_prefix(a[rows as int], s, c),
    decreases c,
{
    if c > 0 {
        lemma_weighted_columns_step(r, a, s, rows, (c - 1) as nat);
        let x = col_dot(r, a, c - 1, rows);
        let rr = r[rows as int] as int;
        let y = a[rows as int][c - 1] as int;
        let z = s[c - 1] as int;
        let dp = dot_prefix(a[rows as int], s, (c - 1) as nat);
        assert((x + rr * y) * z + rr * dp == x * z + rr * (dp + y * z)) by (nonlinear_arith);
    }
}

/// With no rows, every column of `r * A` is zero.
proof fn lemma_weighted_columns_zero(r: Seq<u64>, a: Seq<Seq<u64>>, s: Seq<u64>, c: nat)
    ensures
        weighted_columns(r, a, s, 0, c) == 0,
    decreases c,
{
    if c > 0 {
        lemma_weighted_columns_zero(r, a, s, (c - 1) as nat);
    }
}

/// `(r * A) . s = sum_k r[k] * (A[k] . s)`.
proof fn lemma_weighted_is_mask_sum(r: Seq<u64>, a: Seq<Seq<u64>>, s: Seq<u64>, rows: nat, c: nat)
    ensures
        weighted_columns(r, a, s, rows, c) == mask_sum(r, a, s, rows, c),
    decreases rows,
{
    if rows == 0 {
        lemma_weighted_columns_zero(r, a, s, c);
    } else {
        lemma_weighted_is_mask_sum(r, a, s, (rows - 1) as nat, c);
        lemma_weighted_columns_step(r, a, s, (rows - 1) as nat, c);
    }
}

/// Rows of `A` that are congruent to their errors give a mask sum congruent to
/// the error sum.
proof fn lemma_mask_sum_is_error_sum(
    r: Seq<u64>,
    a: Seq<Seq<u64>>,
    s: Seq<u64>,
    e: Seq<i64>,
    rows: nat,
    c: nat,
    q: nat,
)
    requires
        0 < q,
        rows <= a.len(),
        rows <= e.len(),
        forall|k: int|
            0 <= k < rows ==> #[trigger] dot_prefix(a[k], s, c) % (q as int) == (e[k] as int) % (
            q as int),
    ensures
        mask_sum(r, a, s, rows, c) % (q as int) == error_sum(r, e, rows) % (q as int),
    decreases rows,
{
    let qi = q as int;
    if rows > 0 {
        let k = rows - 1;
        lemma_mask_sum_is_error_sum(r, a, s, e, (rows - 1) as nat, c, q);
        let x = dot_prefix(a[k], s, c);
        lemma_mul_mod_noop_right(r[k] as int, x, qi);
        lemma_mul_mod_noop_right(r[k] as int, e[k] as int, qi);
        lemma_sum_congruent(
            mask_sum(r, a, s, (rows - 1) as nat, c),
            error_sum(r, e, (rows - 1) as nat),
            r[k] * x,
            r[k] * e[k],
            qi,
        );
    }
}

/// The error sum of a bit mask is at most `rows * bound` in size.
proof fn lemma_error_sum_bound(r: Seq<u64>, e: Seq<i64>, rows: nat, bound: int)
    requires
        rows <= r.len(),
        rows <= e.len(),
        bound >= 0,
        forall|k: int| 0 <= k < rows ==> #[trigger] r[k] <= 1,
        forall|k: int| 0 <= k < rows ==> -bound <= #[trigger] e[k] <= bound,
    ensures
        -(rows * bound) <= error_sum(r, e, rows) <= rows * bound,
    decreases rows,
{
    if rows > 0 {
        let k = rows - 1;
        lemma_error_sum_bound(r, e, (rows - 1) as nat, bound);
        let rk = r[k] as int;
        let ek = e[k] as int;
        assert(-bound <= rk * ek <= bound) by (nonlinear_arith)
            requires
                0 <= rk <= 1,
                -bound <= ek <= bound,
        ;
        assert((rows - 1) * bound + bound == rows * bound) by (nonlinear_arith);
    }
}

/// Dropping the first entries of both vectors.
proof fn lemma_dot_first(a: Seq<u64>, b: Seq<u64>, len: nat)
    requires
        len + 1 <= a.len(),
        len + 1 <= b.len(),
    ensures
        dot_prefix(a, b, len + 1) == a[0] * b[0] + dot_prefix(
            a.subrange(1, a.len() as int),
            b.subrange(1, b.len() as int),
            len,
        ),
    decreases len,
{
    if len > 0 {
        lemma_dot_first(a, b, (len - 1) as nat);
        let sa = a.subrange(1, a.len() as int);
        let sb = b.subrange(1, b.len() as int);
        assert(sa[len - 1] == a[len as int]);
        assert(sb[len - 1] == b[len as int]);
        assert(dot_prefix(sa, sb, len) == dot_prefix(sa, sb, (len - 1) as nat) + sa[len - 1] * sb[
            len - 1]);
        assert(dot_prefix(a, b, len + 1) == dot_prefix(a, b, len) + a[len as int] * b[len as int]);
    } else {
        assert(dot_prefix(a, b, 0) == 0);
        assert(dot_prefix(a.subrange(1, a.len() as int), b.subrange(1, b.len() as int), 0) == 0);
        assert(dot_prefix(a, b, 1) == dot_prefix(a, b, 0) + a[0] * b[0]);
    }
}

/// Against the negated t, a row gives the negated product, mod q.
proof fn lemma_dot_negated(brow: Seq<u64>, t: Seq<u64>, q: nat, len: nat)
    requires
        0 < q <= 0x8000_0000,
        len <= brow.len(),
        len <= t.len(),
    ensures
        dot_prefix(brow, Seq::new(t.len(), |j: int| ((-(t[j] as int)) % (q as int)) as u64), len)
            % (q as int) == (-dot_prefix(brow, t, len)) % (q as int),
    decreases len,
{
    let qi = q as int;
    let nt = Seq::new(t.len(), |j: int| ((-(t[j] as int)) % (q as int)) as u64);
    if len == 0 {
        lemma_small_mod(0, q);
    } else {
        let k = len - 1;
        lemma_dot_negated(brow, t, q, (len - 1) as nat);
        lemma_mul_mod_noop_right(brow[k] as int, -(t[k] as int), qi);
        lemma_sum_congruent(
            dot_prefix(brow, nt, (len - 1) as nat),
            -dot_prefix(brow, t, (len - 1) as nat),
            brow[k] * nt[k],
            brow[k] * (-(t[k] as int)),
            qi,
        );
        assert(brow[k] * (-(t[k] as int)) == -(brow[k] * t[k])) by (nonlinear_arith);
    }
}

/// The LWE relation for one row of the public matrix: A_i . s = e_i (mod q).
pub proof fn lemma_lwe_row(brow: Seq<u64>, t: Seq<u64>, e: int, q: nat)
    requires
        0 < q <= 0x8000_0000,
        brow.len() == t.len(),
    ensures
        dot_prefix(public_row(brow, t, e, q), secret_vector(t, q), t.len() + 1) % (q as int) == e
            % (q as int),
{
    let qi = q as int;
    let n = t.len();
    let a = public_row(brow, t, e, q);
    let s = secret_vector(t, q);
    let nt = Seq::new(t.len(), |j: int| ((-(t[j] as int)) % (q as int)) as u64);
    lemma_dot_first(a, s, n);
    assert(a.subrange(1, a.len() as int) =~= brow);
    assert(s.subrange(1, s.len() as int) =~= nt);
    lemma_dot_negated(brow, t, q, n);
    let bt = dot_prefix(brow, t, n);
    assert(a[0] as int == (bt + e) % qi);
    lemma_mod_mod(bt + e, qi, 1);
    assert(qi * 1 == qi);
    assert((a[0] as int) % qi == (bt + e) % qi);
    assert(s[0] == 1);
    let sa = a.subrange(1, a.len() as int);
    let ss = s.subrange(1, s.len() as int);
    assert(dot_prefix(a, s, n + 1) == a[0] * s[0] + dot_prefix(sa, ss, n));
    assert(sa == brow);
    assert(ss == nt);
    let a0 = a[0] as int;
    let s0 = s[0] as int;
    assert(a0 * s0 == a0) by (nonlinear_arith)
        requires
            s0 == 1,
    ;
    assert(dot_prefix(a, s, n + 1) == a[0] + dot_prefix(brow, nt, n));
    lemma_sum_congruent(a[0] as int, bt + e, dot_prefix(brow, nt, n), -bt, qi);
    assert(bt + e + -bt == e);
}

/// Decryption's rounding of (E + bit * h) mod 2h, centered, against h gives
/// `bit` when |E| < h / 2.
proof fn lemma_round_recovers_bit(err: int, bit: int, h: int)
    requires
        h > 0,
        0 <= bit <= 1,
        2 * err < h,
        -h < 2 * err,
    ensures
        crate::gsw::round_to_bit(crate::gsw::centered((err + bit * h) % (2 * h), 2 * h), h) == bit,
{
    let q = 2 * h;
    let d = (err + bit * h) % q;
    let hh = h / 2;
    assert(2 * hh <= h <= 2 * hh + 1);
    if bit == 0 {
        if err >= 0 {
            lemma_small_mod(err as nat, q as nat);
        } else {
            lemma_fundamental_div_mod_converse(err, q, -1, err + q);
        }
        assert(crate::gsw::centered(d, q) == err);
        let m = if err < 0 { -err } else { err };
        lemma_fundamental_div_mod_converse(m + hh, h, 0, m + hh);
    } else {
        lemma_fundamental_div_mod_converse(err + h, q, 0, err + h);
        assert(d == err + h);
        let c = crate::gsw::centered(d, q);
        let m = if c < 0 { -c } else { c };
        assert(h <= m + hh < 2 * h);
        lemma_fundamental_div_mod_converse(m + hh, h, 1, m + hh - h);
    }
}

/// The noise budget for `k` mask errors: k times the largest error sum of a
/// mask stays below q / 4.
pub open spec fn noise_fits(params: Params, k: int) -> bool {
    4 * k * (params.m * (if params.error_bound > 0 { params.error_bound as int } else { 0 }))
        < params.q
}

/// Row `i` of a fresh encryption of `bit` against PowersOf2(s) is
/// `bit * PowersOf2(s)[i]` plus the error of mask row `i`, mod q.
pub proof fn lemma_fresh_row(
    params: Params,
    t: Seq<u64>,
    bmat: Seq<Seq<u64>>,
    e: Seq<i64>,
    sk: crate::lwe::SecretKey,
    pk: crate::lwe::PublicKey,
    bit: int,
    r: Seq<Seq<u64>>,
    i: int,
)
    requires
        params.wf(),
        valid_samples(params, t, bmat, e),
        keys_from_samples(params, t, bmat, e, sk, pk),
        0 <= bit <= 1,
        valid_mask(r, params),
        0 <= i < params.n_expanded,
    ensures
        dot_prefix(
            encrypt_spec(rows_view(pk.a@), bit, r, params)[i],
            powers_of_2_spec(sk.s@, params.l as nat, params.q as nat),
            params.n_expanded as nat,
        ) % (params.q as int) == (error_sum(r[i], e, params.m as nat) + bit * powers_of_2_spec(
            sk.s@,
            params.l as nat,
            params.q as nat,
        )[i]) % (params.q as int),
        -(params.m * (if params.error_bound > 0 { params.error_bound as int } else { 0 }))
            <= error_sum(r[i], e, params.m as nat) <= params.m * (if params.error_bound > 0 {
            params.error_bound as int
        } else {
            0
        }),
{
    let l = params.l as nat;
    let q = params.q as nat;
    let qi = q as int;
    let n1 = (params.n + 1) as nat;
    let nn = params.n_expanded as nat;
    let s = sk.s@;
    let a = rows_view(pk.a@);
    let c = encrypt_spec(a, bit, r, params);
    let po = powers_of_2_spec(s, l, q);
    crate::params::lemma_wf_q_bounds(params);
    lemma_params_bounds(&params, l);
    let rr = r[i];
    let ra = row_times(rr, a, n1, q);
    let w = bit_decomp_spec(ra, l);
    let u = add_to_entry(w, i, bit, q);
    assert(c[i] == encryption_row(a, bit, rr, i, params));
    assert(c[i] == flatten_spec(u, l, q));
    lemma_bit_decomp_bits(ra, l);
    assert(w.len() == n1 * l);
    assert(u.len() == s.len() * l);
    lemma_flatten_keeps_dot(u, s, params);
    assert forall|k: int| 0 <= k < w.len() implies #[trigger] w[k] < q by {}
    lemma_dot_add_to_entry(w, po, i, bit, q, nn);
    assert(all_below(ra, q));
    lemma_gadget_identity(ra, s, params);
    lemma_row_times_dot(rr, a, s, n1, q, n1);
    lemma_weighted_is_mask_sum(rr, a, s, a.len(), n1);
    assert forall|k: int| 0 <= k < a.len() implies #[trigger] dot_prefix(a[k], s, n1) % qi == (
    e[k] as int) % qi by {
        assert(a[k] == public_row(bmat[k], t, e[k] as int, q));
        lemma_lwe_row(bmat[k], t, e[k] as int, q);
    }
    lemma_mask_sum_is_error_sum(rr, a, s, e, a.len(), n1, q);
    let bound: int = if params.error_bound > 0 { params.error_bound as int } else { 0 };
    assert forall|k: int| 0 <= k < a.len() implies -bound <= #[trigger] e[k] <= bound by {}
    assert forall|k: int| 0 <= k < a.len() implies #[trigger] rr[k] <= 1 by {
        assert(all_below(r[i], 2));
    }
    lemma_error_sum_bound(rr, e, a.len(), bound);
    assert(a.len() == params.m);
    let err = error_sum(rr, e, a.len());
    let dw = dot_prefix(w, po, nn);
    let dr = dot_prefix(ra, s, n1);
    assert(dw % qi == dr % qi);
    assert(dr % qi == err % qi);
    lemma_sum_congruent(dw, err, bit * po[i], bit * po[i], qi);
}

/// PowersOf2(s)[l - 1] is 2^(l-1) when s[0] = 1.
proof fn lemma_scale_entry(s: Seq<u64>, params: Params)
    requires
        params.wf(),
        s.len() >= 1,
        s[0] == 1,
    ensures
        powers_of_2_spec(s, params.l as nat, params.q as nat)[params.l - 1] == pow2(
            (params.l - 1) as nat,
        ),
        params.q == 2 * pow2((params.l - 1) as nat),
{
    let l = params.l as nat;
    let li = (l - 1) as nat;
    lemma_params_bounds(&params, l);
    lemma_pow2_strictly_increases(li, l);
    lemma_pow2_pos(li);
    lemma_index_split(0, li as int, l as int);
    lemma_mul_inequality(1, s.len() as int, l as int);
    lemma_small_mod(pow2(li), params.q as nat);
    lemma_pow2_unfold(l);
}

/// Decryption of a fresh encryption: for keys built from any valid samples
/// and any bit mask R, decrypting the encryption of `bit` gives `bit`, when
/// the error of a mask fits the noise budget.
pub proof fn lemma_decrypt_encrypt(
    params: Params,
    t: Seq<u64>,
    bmat: Seq<Seq<u64>>,
    e: Seq<i64>,
    sk: crate::lwe::SecretKey,
    pk: crate::lwe::PublicKey,
    bit: int,
    r: Seq<Seq<u64>>,
)
    requires
        params.wf(),
        noise_fits(params, 1),
        valid_samples(params, t, bmat, e),
        keys_from_samples(params, t, bmat, e, sk, pk),
        0 <= bit <= 1,
        valid_mask(r, params),
    ensures
        decrypt_spec(sk.s@, encrypt_spec(rows_view(pk.a@), bit, r, params), params) == bit,
{
    let l = params.l as nat;
    let li = (params.l - 1) as int;
    crate::params::lemma_wf_q_bounds(params);
    lemma_scale_entry(sk.s@, params);
    lemma_fresh_row(params, t, bmat, e, sk, pk, bit, r, li);
    let h = pow2((params.l - 1) as nat) as int;
    let err = error_sum(r[li], e, params.m as nat);
    let bound: int = if params.error_bound > 0 { params.error_bound as int } else { 0 };
    let mm = params.m as int;
    assert(2 * err < h && -h < 2 * err) by (nonlinear_arith)
        requires
            -(mm * bound) <= err <= mm * bound,
            4 * 1 * (mm * bound) < 2 * h,
            mm >= 0,
            bound >= 0,
    ;
    lemma_mod_mod(err + bit * h, params.q as int, 1);
    lemma_round_recovers_bit(err, bit, h);
}

/// Entry-wise sums mod q add the products with `b`, mod q.
proof fn lemma_dot_sum_entries(x: Seq<u64>, y: Seq<u64>, b: Seq<u64>, q: nat, len: nat)
    requires
        0 < q <= 0x8000_0000,
        len <= x.len(),
        x.len() == y.len(),
        len <= b.len(),
    ensures
        dot_prefix(
            Seq::new(x.len(), |j: int| ((x[j] + y[j]) % (q as int)) as u64),
            b,
            len,
        ) % (q as int) == (dot_prefix(x, b, len) + dot_prefix(y, b, len)) % (q as int),
    decreases len,
{
    let qi = q as int;
    let z = Seq::new(x.len(), |j: int| ((x[j] + y[j]) % (q as int)) as u64);
    if len == 0 {
        lemma_small_mod(0, q);
    } else {
        let k = len - 1;
        lemma_dot_sum_entries(x, y, b, q, (len - 1) as nat);
        lemma_mul_mod_noop_left(x[k] + y[k], b[k] as int, qi);
        lemma_sum_congruent(
            dot_prefix(z, b, (len - 1) as nat),
            dot_prefix(x, b, (len - 1) as nat) + dot_prefix(y, b, (len - 1) as nat),
            z[k] * b[k],
            (x[k] + y[k]) * b[k],
            qi,
        );
        assert((x[k] + y[k]) * b[k] == x[k] * b[k] + y[k] * b[k]) by (nonlinear_arith);
    }
}

/// A row of a fresh encryption has length N.
proof fn lemma_fresh_row_len(a: Seq<Seq<u64>>, bit: int, r: Seq<Seq<u64>>, params: Params, i: int)
    requires
        params.wf(),
        0 <= i < r.len(),
        r.len() == params.n_expanded,
    ensures
        encrypt_spec(a, bit, r, params)[i].len() == params.n_expanded,
{
    let l = params.l as nat;
    let q = params.q as nat;
    let n1 = (params.n + 1) as nat;
    let ra = row_times(r[i], a, n1, q);
    lemma_bit_decomp_bits(ra, l);
    let u = add_to_entry(bit_decomp_spec(ra, l), i, bit, q);
    lemma_flatten_len_bits(u, params);
}

/// Homomorphic addition of fresh encryptions of `b1` and `b2` decrypts to
/// b1 XOR b2, when twice the error of a mask fits the noise budget.
pub proof fn lemma_decrypt_add(
    params: Params,
    t: Seq<u64>,
    bmat: Seq<Seq<u64>>,
    e: Seq<i64>,
    sk: crate::lwe::SecretKey,
    pk: crate::lwe::PublicKey,
    b1: int,
    r1: Seq<Seq<u64>>,
    b2: int,
    r2: Seq<Seq<u64>>,
)
    requires
        params.wf(),
        noise_fits(params, 2),
        valid_samples(params, t, bmat, e),
        keys_from_samples(params, t, bmat, e, sk, pk),
        0 <= b1 <= 1,
        0 <= b2 <= 1,
        valid_mask(r1, params),
        valid_mask(r2, params),
    ensures
        decrypt_spec(
            sk.s@,
            flatten_rows(
                sum_entries(
                    encrypt_spec(rows_view(pk.a@), b1, r1, params),
                    encrypt_spec(rows_view(pk.a@), b2, r2, params),
                    params.q as nat,
                ),
                params.l as nat,
                params.q as nat,
            ),
            params,
        ) == (b1 + b2) % 2,
{
    let l = params.l as nat;
    let q = params.q as nat;
    let qi = q as int;
    let nn = params.n_expanded as nat;
    let li = (params.l - 1) as int;
    let s = sk.s@;
    let po = powers_of_2_spec(s, l, q);
    let a = rows_view(pk.a@);
    let c1 = encrypt_spec(a, b1, r1, params);
    let c2 = encrypt_spec(a, b2, r2, params);
    let sum = sum_entries(c1, c2, q);
    crate::params::lemma_wf_q_bounds(params);
    lemma_scale_entry(s, params);
    let h = pow2((params.l - 1) as nat) as int;
    lemma_fresh_row(params, t, bmat, e, sk, pk, b1, r1, li);
    lemma_fresh_row(params, t, bmat, e, sk, pk, b2, r2, li);
    lemma_fresh_row_len(a, b1, r1, params, li);
    lemma_fresh_row_len(a, b2, r2, params, li);
    let row = sum[li];
    assert(row == Seq::new(c1[li].len(), |j: int| ((c1[li][j] + c2[li][j]) % (q as int)) as u64));
    lemma_flatten_keeps_dot(row, s, params);
    lemma_dot_sum_entries(c1[li], c2[li], po, q, nn);
    let e1 = error_sum(r1[li], e, params.m as nat);
    let e2 = error_sum(r2[li], e, params.m as nat);
    lemma_sum_congruent(
        dot_prefix(c1[li], po, nn),
        e1 + b1 * h,
        dot_prefix(c2[li], po, nn),
        e2 + b2 * h,
        qi,
    );
    let err = e1 + e2;
    let x = (b1 + b2) % 2;
    if b1 == 0 {
        assert(b1 * h == 0);
    } else {
        assert(b1 * h == h);
    }
    if b2 == 0 {
        assert(b2 * h == 0);
    } else {
        assert(b2 * h == h);
    }
    if x == 0 {
        assert(x * h == 0);
    } else {
        assert(x * h == h);
    }
    if b1 + b2 == 2 {
        lemma_mod_multiples_vanish(1, err, qi);
        assert(e1 + b1 * h + (e2 + b2 * h) == qi * 1 + err);
    }
    assert((e1 + b1 * h + (e2 + b2 * h)) % qi == (err + x * h) % qi);
    let bound: int = if params.error_bound > 0 { params.error_bound as int } else { 0 };
    let mm = params.m as int;
    assert(2 * err < h && -h < 2 * err) by (nonlinear_arith)
        requires
            -(mm * bound) <= e1 <= mm * bound,
            -(mm * bound) <= e2 <= mm * bound,
            err == e1 + e2,
            4 * 2 * (mm * bound) < 2 * h,
            mm >= 0,
            bound >= 0,
    ;
    lemma_mod_mod(err + x * h, qi, 1);
    lemma_round_recovers_bit(err, x, h);
    assert(flatten_rows(sum, l, q)[li] == flatten_spec(row, l, q));
}

/// The sum over `k < rows` of `r[k] * f[k]`.
pub open spec fn lin_sum(r: Seq<u64>, f: Seq<int>, rows: nat) -> int
    decreases rows,
{
    if rows == 0 {
        0
    } else {
        lin_sum(r, f, (rows - 1) as nat) + r[rows - 1] * f[rows - 1]
    }
}

/// Rows of `A` congruent to `f` give a mask sum congruent to `sum_k r[k] * f[k]`.
proof fn lemma_mask_sum_congruent(
    r: Seq<u64>,
    a: Seq<Seq<u64>>,
    s: Seq<u64>,
    f: Seq<int>,
    rows: nat,
    c: nat,
    q: nat,
)
    requires
        0 < q,
        forall|k: int|
            0 <= k < rows ==> #[trigger] dot_prefix(a[k], s, c) % (q as int) == f[k] % (q as int),
    ensures
        mask_sum(r, a, s, rows, c) % (q as int) == lin_sum(r, f, rows) % (q as int),
    decreases rows,
{
    let qi = q as int;
    if rows > 0 {
        let k = rows - 1;
        lemma_mask_sum_congruent(r, a, s, f, (rows - 1) as nat, c, q);
        let x = dot_prefix(a[k], s, c);
        lemma_mul_mod_noop_right(r[k] as int, x, qi);
        lemma_mul_mod_noop_right(r[k] as int, f[k], qi);
        lemma_sum_congruent(
            mask_sum(r, a, s, (rows - 1) as nat, c),
            lin_sum(r, f, (rows - 1) as nat),
            r[k] * x,
            r[k] * f[k],
            qi,
        );
    } else {
        lemma_small_mod(0, q);
    }
}

/// `sum_k r[k] * (g[k] + b * p[k]) = sum_k r[k] * g[k] + b * (r . p)`.
proof fn lemma_lin_sum_split(r: Seq<u64>, g: Seq<int>, p: Seq<u64>, b: int, rows: nat)
    requires
        rows <= g.len(),
        rows <= p.len(),
    ensures
        lin_sum(r, Seq::new(g.len(), |k: int| g[k] + b * p[k]), rows) == lin_sum(r, g, rows) + b
            * dot_prefix(r, p, rows),
    decreases rows,
{
    if rows > 0 {
        let k = rows - 1;
        lemma_lin_sum_split(r, g, p, b, (rows - 1) as nat);
        let rk = r[k] as int;
        let dp = dot_prefix(r, p, (rows - 1) as nat);
        assert(rk * (g[k] + b * p[k]) + b * dp == rk * g[k] + b * (dp + rk * p[k])) by (
        nonlinear_arith);
    }
}

/// A bit vector against values of size at most `x` sums to at most `rows * x`.
proof fn lemma_lin_sum_bound(r: Seq<u64>, f: Seq<int>, rows: nat, x: int)
    requires
        rows <= r.len(),
        rows <= f.len(),
        x >= 0,
        forall|k: int| 0 <= k < rows ==> #[trigger] r[k] <= 1,
        forall|k: int| 0 <= k < rows ==> -x <= #[trigger] f[k] <= x,
    ensures
        -(rows * x) <= lin_sum(r, f, rows) <= rows * x,
    decreases rows,
{
    if rows > 0 {
        let k = rows - 1;
        lemma_lin_sum_bound(r, f, (rows - 1) as nat, x);
        let rk = r[k] as int;
        assert(-x <= rk * f[k] <= x) by (nonlinear_arith)
            requires
                0 <= rk <= 1,
                -x <= f[k] <= x,
        ;
        assert((rows - 1) * x + x == rows * x) by (nonlinear_arith);
    }
}

/// Row `i` of the product of two fresh encryptions against PowersOf2(s) is
/// `b1 * b2 * PowersOf2(s)[i]` plus a noise of size at most (N + 1) * m * B, mod q.
proof fn lemma_product_row(
    params: Params,
    t: Seq<u64>,
    bmat: Seq<Seq<u64>>,
    e: Seq<i64>,
    sk: crate::lwe::SecretKey,
    pk: crate::lwe::PublicKey,
    b1: int,
    r1: Seq<Seq<u64>>,
    b2: int,
    r2: Seq<Seq<u64>>,
    i: int,
) -> (noise: int)
    requires
        params.wf(),
        valid_samples(params, t, bmat, e),
        keys_from_samples(params, t, bmat, e, sk, pk),
        0 <= b1 <= 1,
        0 <= b2 <= 1,
        valid_mask(r1, params),
        valid_mask(r2, params),
        0 <= i < params.n_expanded,
    ensures
        dot_prefix(
            row_times(
                encrypt_spec(rows_view(pk.a@), b1, r1, params)[i],
                encrypt_spec(rows_view(pk.a@), b2, r2, params),
                params.n_expanded as nat,
                params.q as nat,
            ),
            powers_of_2_spec(sk.s@, params.l as nat, params.q as nat),
            params.n_expanded as nat,
        ) % (params.q as int) == (noise + b1 * b2 * powers_of_2_spec(
            sk.s@,
            params.l as nat,
            params.q as nat,
        )[i]) % (params.q as int),
        -((params.n_expanded + 1) * (params.m * (if params.error_bound > 0 {
            params.error_bound as int
        } else {
            0
        }))) <= noise <= (params.n_expanded + 1) * (params.m * (if params.error_bound > 0 {
            params.error_bound as int
        } else {
            0
        })),
{
    let l = params.l as nat;
    let q = params.q as nat;
    let qi = q as int;
    let nn = params.n_expanded as nat;
    let s = sk.s@;
    let po = powers_of_2_spec(s, l, q);
    let a = rows_view(pk.a@);
    let c1 = encrypt_spec(a, b1, r1, params);
    let c2 = encrypt_spec(a, b2, r2, params);
    let row = c1[i];
    crate::params::lemma_wf_q_bounds(params);
    lemma_params_bounds(&params, l);
    let bound: int = if params.error_bound > 0 { params.error_bound as int } else { 0 };
    let mb = params.m * bound;
    // the first factor's row is made of bits
    let n1 = (params.n + 1) as nat;
    let ra = row_times(r1[i], a, n1, q);
    lemma_bit_decomp_bits(ra, l);
    lemma_flatten_len_bits(add_to_entry(bit_decomp_spec(ra, l), i, b1, q), params);
    assert(c1[i] == encryption_row(a, b1, r1[i], i, params));
    assert(all_below(row, 2));
    // the second factor's rows
    let g = Seq::new(nn, |k: int| error_sum(r2[k], e, params.m as nat));
    let f = Seq::new(g.len(), |k: int| g[k] + b2 * po[k]);
    assert forall|k: int| 0 <= k < nn implies #[trigger] dot_prefix(c2[k], po, nn) % qi == f[k]
        % qi && -mb <= g[k] <= mb by {
        lemma_fresh_row(params, t, bmat, e, sk, pk, b2, r2, k);
    }
    lemma_row_times_dot(row, c2, po, nn, q, nn);
    lemma_weighted_is_mask_sum(row, c2, po, c2.len(), nn);
    lemma_mask_sum_congruent(row, c2, po, f, nn, nn, q);
    lemma_lin_sum_split(row, g, po, b2, nn);
    // the first factor's row against PowersOf2(s)
    lemma_fresh_row(params, t, bmat, e, sk, pk, b1, r1, i);
    let e1 = error_sum(r1[i], e, params.m as nat);
    let d1 = dot_prefix(row, po, nn);
    lemma_mul_mod_noop_right(b2, d1, qi);
    lemma_mul_mod_noop_right(b2, e1 + b1 * po[i], qi);
    let ls = lin_sum(row, g, nn);
    lemma_sum_congruent(ls, ls, b2 * d1, b2 * (e1 + b1 * po[i]), qi);
    assert forall|k: int| 0 <= k < nn implies -mb <= #[trigger] g[k] <= mb by {
        lemma_fresh_row(params, t, bmat, e, sk, pk, b2, r2, k);
    }
    lemma_lin_sum_bound(row, g, nn, mb);
    assert forall|k: int| 0 <= k < nn implies #[trigger] row[k] <= 1 by {}
    assert(b2 * (e1 + b1 * po[i]) == b2 * e1 + b1 * b2 * po[i]) by (nonlinear_arith);
    let noise = ls + b2 * e1;
    assert(-mb <= b2 * e1 <= mb) by (nonlinear_arith)
        requires
            0 <= b2 <= 1,
            -mb <= e1 <= mb,
    ;
    assert(nn * mb + mb == (nn + 1) * mb) by (nonlinear_arith);
    noise
}

/// Homomorphic multiplication of fresh encryptions of `b1` and `b2` decrypts
/// to b1 AND b2, when N + 1 times the error of a mask fits the noise budget.
pub proof fn lemma_decrypt_mult(
    params: Params,
    t: Seq<u64>,
    bmat: Seq<Seq<u64>>,
    e: Seq<i64>,
    sk: crate::lwe::SecretKey,
    pk: crate::lwe::PublicKey,
    b1: int,
    r1: Seq<Seq<u64>>,
    b2: int,
    r2: Seq<Seq<u64>>,
)
    requires
        params.wf(),
        noise_fits(params, params.n_expanded + 1),
        valid_samples(params, t, bmat, e),
        keys_from_samples(params, t, bmat, e, sk, pk),
        0 <= b1 <= 1,
        0 <= b2 <= 1,
        valid_mask(r1, params),
        valid_mask(r2, params),
    ensures
        decrypt_spec(
            sk.s@,
            flatten_rows(
                mat_mul(
                    encrypt_spec(rows_view(pk.a@), b1, r1, params),
                    encrypt_spec(rows_view(pk.a@), b2, r2, params),
                    params.n_expanded as nat,
                    params.q as nat,
                ),
                params.l as nat,
                params.q as nat,
            ),
            params,
        ) == b1 * b2,
{
    let l = params.l as nat;
    let q = params.q as nat;
    let qi = q as int;
    let nn = params.n_expanded as nat;
    let li = (params.l - 1) as int;
    let s = sk.s@;
    let a = rows_view(pk.a@);
    let c1 = encrypt_spec(a, b1, r1, params);
    let c2 = encrypt_spec(a, b2, r2, params);
    let prod = mat_mul(c1, c2, nn, q);
    crate::params::lemma_wf_q_bounds(params);
    lemma_scale_entry(s, params);
    let h = pow2((params.l - 1) as nat) as int;
    let noise = lemma_product_row(params, t, bmat, e, sk, pk, b1, r1, b2, r2, li);
    let prow = prod[li];
    assert(prow == row_times(c1[li], c2, nn, q));
    lemma_flatten_keeps_dot(prow, s, params);
    let x = b1 * b2;
    assert(0 <= x <= 1) by (nonlinear_arith)
        requires
            x == b1 * b2,
            0 <= b1 <= 1,
            0 <= b2 <= 1,
    ;
    let bound: int = if params.error_bound > 0 { params.error_bound as int } else { 0 };
    let mb = params.m * bound;
    let k = (nn + 1) as int;
    assert(2 * noise < h && -h < 2 * noise) by (nonlinear_arith)
        requires
            -(k * mb) <= noise <= k * mb,
            4 * k * mb < 2 * h,
            mb >= 0,
    ;
    lemma_mod_mod(noise + x * h, qi, 1);
    lemma_round_recovers_bit(noise, x, h);
    assert(flatten_rows(prod, l, q)[li] == flatten_spec(prow, l, q));
}

/// I - p against `b` is `b[i] - p . b`, mod q.
proof fn lemma_dot_identity_minus_row(p: Seq<u64>, b: Seq<u64>, i: int, q: nat, len: nat)
    requires
        0 < q <= 0x8000_0000,
        len <= p.len(),
        len <= b.len(),
        0 <= i,
    ensures
        dot_prefix(
            Seq::new(p.len(), |j: int| (((if i == j { 1int } else { 0int }) - p[j]) % (q as int)) as u64),
            b,
            len,
        ) % (q as int) == ((if i < len { b[i] as int } else { 0 }) - dot_prefix(p, b, len)) % (
        q as int),
    decreases len,
{
    let qi = q as int;
    let z = Seq::new(p.len(), |j: int| (((if i == j { 1int } else { 0int }) - p[j]) % (q as int)) as u64);
    if len == 0 {
        lemma_small_mod(0, q);
    } else {
        let k = len - 1;
        lemma_dot_identity_minus_row(p, b, i, q, (len - 1) as nat);
        let dk = if i == k { 1int } else { 0int };
        lemma_mul_mod_noop_left(dk - p[k], b[k] as int, qi);
        let prev_extra = if i < k { b[i] as int } else { 0 };
        lemma_sum_congruent(
            dot_prefix(z, b, (len - 1) as nat),
            prev_extra - dot_prefix(p, b, (len - 1) as nat),
            z[k] * b[k],
            (dk - p[k]) * b[k],
            qi,
        );
        assert((dk - p[k]) * b[k] == dk * b[k] - p[k] * b[k]) by (nonlinear_arith);
        if i == k {
            assert(dk * b[k] == b[k]);
        } else {
            assert(dk * b[k] == 0);
        }
    }
}

/// Homomorphic NAND of fresh encryptions of `b1` and `b2` decrypts to
/// 1 - b1 * b2, when N + 1 times the error of a mask fits the noise budget.
pub proof fn lemma_decrypt_nand(
    params: Params,
    t: Seq<u64>,
    bmat: Seq<Seq<u64>>,
    e: Seq<i64>,
    sk: crate::lwe::SecretKey,
    pk: crate::lwe::PublicKey,
    b1: int,
    r1: Seq<Seq<u64>>,
    b2: int,
    r2: Seq<Seq<u64>>,
)
    requires
        params.wf(),
        noise_fits(params, params.n_expanded + 1),
        valid_samples(params, t, bmat, e),
        keys_from_samples(params, t, bmat, e, sk, pk),
        0 <= b1 <= 1,
        0 <= b2 <= 1,
        valid_mask(r1, params),
        valid_mask(r2, params),
    ensures
        decrypt_spec(
            sk.s@,
            flatten_rows(
                identity_minus(
                    mat_mul(
                        encrypt_spec(rows_view(pk.a@), b1, r1, params),
                        encrypt_spec(rows_view(pk.a@), b2, r2, params),
                        params.n_expanded as nat,
                        params.q as nat,
                    ),
                    params.q as nat,
                ),
                params.l as nat,
                params.q as nat,
            ),
            params,
        ) == 1 - b1 * b2,
{
    let l = params.l as nat;
    let q = params.q as nat;
    let qi = q as int;
    let nn = params.n_expanded as nat;
    let li = (params.l - 1) as int;
    let s = sk.s@;
    let po = powers_of_2_spec(s, l, q);
    let a = rows_view(pk.a@);
    let c1 = encrypt_spec(a, b1, r1, params);
    let c2 = encrypt_spec(a, b2, r2, params);
    let prod = mat_mul(c1, c2, nn, q);
    let diff = identity_minus(prod, q);
    crate::params::lemma_wf_q_bounds(params);
    lemma_scale_entry(s, params);
    let h = pow2((params.l - 1) as nat) as int;
    let noise = lemma_product_row(params, t, bmat, e, sk, pk, b1, r1, b2, r2, li);
    let prow = prod[li];
    assert(prow == row_times(c1[li], c2, nn, q));
    let drow = diff[li];
    assert(drow == Seq::new(
        prow.len(),
        |j: int| (((if li == j { 1int } else { 0int }) - prow[j]) % (q as int)) as u64,
    ));
    lemma_flatten_keeps_dot(drow, s, params);
    lemma_dot_identity_minus_row(prow, po, li, q, nn);
    let x = b1 * b2;
    assert(0 <= x <= 1) by (nonlinear_arith)
        requires
            x == b1 * b2,
            0 <= b1 <= 1,
            0 <= b2 <= 1,
    ;
    let dp = dot_prefix(prow, po, nn);
    lemma_sub_mod_noop(0, dp, qi);
    lemma_sub_mod_noop(0, noise + x * h, qi);
    lemma_sum_congruent(h, h, -dp, -(noise + x * h), qi);
    let bit = 1 - x;
    assert(h - (noise + x * h) == -noise + bit * h) by (nonlinear_arith)
        requires
            bit == 1 - x,
    ;
    let bound: int = if params.error_bound > 0 { params.error_bound as int } else { 0 };
    let mb = params.m * bound;
    let k = (nn + 1) as int;
    assert(2 * (-noise) < h && -h < 2 * (-noise)) by (nonlinear_arith)
        requires
            -(k * mb) <= noise <= k * mb,
            4 * k * mb < 2 * h,
            mb >= 0,
    ;
    lemma_mod_mod(-noise + bit * h, qi, 1);
    lemma_round_recovers_bit(-noise, bit, h);
    assert(flatten_rows(diff, l, q)[li] == flatten_spec(drow, l, q));
}

/// With the Toy parameters, decrypting a fresh encryption of a bit gives the
/// bit back, for every draw of the keys and of the mask.
pub proof fn lemma_toy_decrypt_encrypt(
    t: Seq<u64>,
    bmat: Seq<Seq<u64>>,
    e: Seq<i64>,
    sk: crate::lwe::SecretKey,
    pk: crate::lwe::PublicKey,
    bit: int,
    r: Seq<Seq<u64>>,
)
    requires
        sk.params.wf(),
        (sk.params.q, sk.params.n, sk.params.m, sk.params.error_bound) == Params::preset(
            SecurityLevel::Toy,
        ),
        valid_samples(sk.params, t, bmat, e),
        keys_from_samples(sk.params, t, bmat, e, sk, pk),
        0 <= bit <= 1,
        valid_mask(r, sk.params),
    ensures
        decrypt_spec(sk.s@, encrypt_spec(rows_view(pk.a@), bit, r, sk.params), sk.params) == bit,
{
    lemma_toy_budget(sk.params);
    lemma_decrypt_encrypt(sk.params, t, bmat, e, sk, pk, bit, r);
}

/// With the Toy parameters, the homomorphic sum of fresh encryptions of `b1`
/// and `b2` decrypts to b1 XOR b2, for every draw of the keys and masks.
pub proof fn lemma_toy_decrypt_add(
    t: Seq<u64>,
    bmat: Seq<Seq<u64>>,
    e: Seq<i64>,
    sk: crate::lwe::SecretKey,
    pk: crate::lwe::PublicKey,
    b1: int,
    r1: Seq<Seq<u64>>,
    b2: int,
    r2: Seq<Seq<u64>>,
)
    requires
        sk.params.wf(),
        (sk.params.q, sk.params.n, sk.params.m, sk.params.error_bound) == Params::preset(
            SecurityLevel::Toy,
        ),
        valid_samples(sk.params, t, bmat, e),
        keys_from_samples(sk.params, t, bmat, e, sk, pk),
        0 <= b1 <= 1,
        0 <= b2 <= 1,
        valid_mask(r1, sk.params),
        valid_mask(r2, sk.params),
    ensures
        decrypt_spec(
            sk.s@,
            flatten_rows(
                sum_entries(
                    encrypt_spec(rows_view(pk.a@), b1, r1, sk.params),
                    encrypt_spec(rows_view(pk.a@), b2, r2, sk.params),
                    sk.params.q as nat,
                ),
                sk.params.l as nat,
                sk.params.q as nat,
            ),
            sk.params,
        ) == (b1 + b2) % 2,
{
    lemma_toy_budget(sk.params);
    lemma_decrypt_add(sk.params, t, bmat, e, sk, pk, b1, r1, b2, r2);
}

/// The Toy preset has l = 20 and N = 180, and its noise budget holds N + 1 mask errors.
proof fn lemma_toy_budget(params: Params)
    requires
        params.wf(),
        (params.q, params.n, params.m, params.error_bound) == Params::preset(SecurityLevel::Toy),
    ensures
        params.n_expanded == 180,
        noise_fits(params, params.n_expanded + 1),
        noise_fits(params, 2),
        noise_fits(params, 1),
{
    lemma2_to64();
    let l = params.l as nat;
    if l < 20 {
        lemma_pow2_strictly_increases(l, 20);
    } else if l > 20 {
        lemma_pow2_strictly_increases(20, l);
    }
    assert(params.l == 20);
    assert(params.n == 8);
    assert(params.n_expanded == (8 + 1) * 20);
    assert(params.m * 1int == 256);
    assert(4 * (180 + 1) * (256 * 1int) < 0x10_0000);
}

/// With the Toy parameters, the homomorphic product of fresh encryptions of
/// `b1` and `b2` decrypts to b1 AND b2, for every draw of the keys and masks.
pub proof fn lemma_toy_decrypt_mult(
    t: Seq<u64>,
    bmat: Seq<Seq<u64>>,
    e: Seq<i64>,
    sk: crate::lwe::SecretKey,
    pk: crate::lwe::PublicKey,
    b1: int,
    r1: Seq<Seq<u64>>,
    b2: int,
    r2: Seq<Seq<u64>>,
)
    requires
        sk.params.wf(),
        (sk.params.q, sk.params.n, sk.params.m, sk.params.error_bound) == Params::preset(
            SecurityLevel::Toy,
        ),
        valid_samples(sk.params, t, bmat, e),
        keys_from_samples(sk.params, t, bmat, e, sk, pk),
        0 <= b1 <= 1,
        0 <= b2 <= 1,
        valid_mask(r1, sk.params),
        valid_mask(r2, sk.params),
    ensures
        decrypt_spec(
            sk.s@,
            flatten_rows(
                mat_mul(
                    encrypt_spec(rows_view(pk.a@), b1, r1, sk.params),
                    encrypt_spec(rows_view(pk.a@), b2, r2, sk.params),
                    sk.params.n_expanded as nat,
                    sk.params.q as nat,
                ),
                sk.params.l as nat,
                sk.params.q as nat,
            ),
            sk.params,
        ) == b1 * b2,
{
    lemma_toy_budget(sk.params);
    lemma_decrypt_mult(sk.params, t, bmat, e, sk, pk, b1, r1, b2, r2);
}

/// With the Toy parameters, the homomorphic NAND of fresh encryptions of `b1`
/// and `b2` decrypts to 1 - b1 * b2, for every draw of the keys and masks.
pub proof fn lemma_toy_decrypt_nand(
    t: Seq<u64>,
    bmat: Seq<Seq<u64>>,
    e: Seq<i64>,
    sk: crate::lwe::SecretKey,
    pk: crate::lwe::PublicKey,
    b1: int,
    r1: Seq<Seq<u64>>,
    b2: int,
    r2: Seq<Seq<u64>>,
)
    requires
        sk.params.wf(),
        (sk.params.q, sk.params.n, sk.params.m, sk.params.error_bound) == Params::preset(
            SecurityLevel::Toy,
        ),
        valid_samples(sk.params, t, bmat, e),
        keys_from_samples(sk.params, t, bmat, e, sk, pk),
        0 <= b1 <= 1,
        0 <= b2 <= 1,
        valid_mask(r1, sk.params),
        valid_mask(r2, sk.params),
    ensures
        decrypt_spec(
            sk.s@,
            flatten_rows(
                identity_minus(
                    mat_mul(
                        encrypt_spec(rows_view(pk.a@), b1, r1, sk.params),
                        encrypt_spec(rows_view(pk.a@), b2, r2, sk.params),
                        sk.params.n_expanded as nat,
                        sk.params.q as nat,
                    ),
                    sk.params.q as nat,
                ),
                sk.params.l as nat,
                sk.params.q as nat,
            ),
            sk.params,
        ) == 1 - b1 * b2,
{
    lemma_toy_budget(sk.params);
    lemma_decrypt_nand(sk.params, t, bmat, e, sk, pk, b1, r1, b2, r2);
}

/// The dot product is symmetric.
proof fn lemma_dot_symmetric(a: Seq<u64>, b: Seq<u64>, len: nat)
    ensures
        dot_prefix(a, b, len) == dot_prefix(b, a, len),
    decreases len,
{
    if len > 0 {
        lemma_dot_symmetric(a, b, (len - 1) as nat);
        lemma_mul_is_commutative(a[len - 1] as int, b[len - 1] as int);
    }
}

/// A row of zeros has a zero product.
proof fn lemma_dot_zeros(a: Seq<u64>, b: Seq<u64>, len: nat)
    requires
        len <= a.len(),
        forall|j: int| 0 <= j < len ==> #[trigger] a[j] == 0,
    ensures
        dot_prefix(a, b, len) == 0,
    decreases len,
{
    if len > 0 {
        lemma_dot_zeros(a, b, (len - 1) as nat);
    }
}

/// Entry-wise scaling by `c` mod q scales the product by `c`, mod q.
proof fn lemma_dot_scaled(x: Seq<u64>, c: int, b: Seq<u64>, q: nat, len: nat)
    requires
        0 < q <= 0x8000_0000,
        len <= x.len(),
        len <= b.len(),
    ensures
        dot_prefix(Seq::new(x.len(), |j: int| ((x[j] * c) % (q as int)) as u64), b, len) % (
        q as int) == (c * dot_prefix(x, b, len)) % (q as int),
    decreases len,
{
    let qi = q as int;
    let z = Seq::new(x.len(), |j: int| ((x[j] * c) % (q as int)) as u64);
    if len == 0 {
        lemma_small_mod(0, q);
    } else {
        let k = len - 1;
        lemma_dot_scaled(x, c, b, q, (len - 1) as nat);
        lemma_mul_mod_noop_left(x[k] * c, b[k] as int, qi);
        lemma_sum_congruent(
            dot_prefix(z, b, (len - 1) as nat),
            c * dot_prefix(x, b, (len - 1) as nat),
            z[k] * b[k],
            x[k] * c * b[k],
            qi,
        );
        let d = dot_prefix(x, b, (len - 1) as nat);
        assert(c * d + x[k] * c * b[k] == c * (d + x[k] * b[k])) by (nonlinear_arith);
    }
}

/// The coefficients summed with shifts `2^(k + j)` are `2^k` times the gadget sum.
proof fn lemma_shifted_block_sum(c: Seq<u64>, start: int, k: nat, len: nat)
    ensures
        crate::bootstrap::shifted_block_sum(c, start, k, len) == pow2(k) * gadget_sum(c, start, len),
    decreases len,
{
    if len > 0 {
        let j = (len - 1) as nat;
        lemma_shifted_block_sum(c, start, k, j);
        lemma_pow2_adds(k, j);
        let pk = pow2(k) as int;
        let pj = pow2(j) as int;
        let x = c[start + len - 1] as int;
        let g = gadget_sum(c, start, j);
        assert(pk * g + x * (pk * pj) == pk * (g + x * pj)) by (nonlinear_arith);
    }
}

/// The bootstrap coefficients of a row `c` of length N are PowersOf2 of
/// BitDecompInverse(c).
pub proof fn lemma_coefficients_are_powers(c: Seq<u64>, params: Params)
    requires
        params.wf(),
        c.len() == params.n_expanded,
    ensures
        crate::bootstrap::bootstrap_coefficients(c, params) == powers_of_2_spec(
            bit_decomp_inverse_spec(c, params.l as nat, params.q as nat),
            params.l as nat,
            params.q as nat,
        ),
{
    let l = params.l as nat;
    let q = params.q as nat;
    let qi = q as int;
    let g = bit_decomp_inverse_spec(c, l, q);
    let lhs = crate::bootstrap::bootstrap_coefficients(c, params);
    let rhs = powers_of_2_spec(g, l, q);
    lemma_params_bounds(&params, l);
    lemma_div_by_multiple((params.n + 1) as int, l as int);
    lemma_mul_is_commutative((params.n + 1) as int, l as int);
    assert(g.len() == params.n + 1);
    assert forall|i: int| 0 <= i < lhs.len() implies #[trigger] lhs[i] == rhs[i] by {
        let b = i / (l as int);
        let k = (i % (l as int)) as nat;
        lemma_fundamental_div_mod(i, l as int);
        lemma_mod_pos_bound(i, l as int);
        lemma_div_pos_is_pos(i, l as int);
        lemma_mul_is_commutative(b, l as int);
        let gs = gadget_sum(c, b * l, l);
        lemma_shifted_block_sum(c, b * l, k, l);
        lemma_mul_mod_noop_left(gs, pow2(k) as int, qi);
        lemma_mul_is_commutative(pow2(k) as int, gs);
        if b >= params.n + 1 {
            lemma_mul_inequality((params.n + 1) as int, b, l as int);
        }
        assert(g[b] as int == gs % qi);
    }
    assert(lhs =~= rhs);
}

/// Every row of an evaluation key entry decrypts exactly to its bit: row `r`
/// of ciphertext `i` against PowersOf2(s) is bit `i` of BitDecomp(s) times
/// PowersOf2(s)[r], mod q.
pub open spec fn noise_free_key(cts: Seq<Seq<Seq<u64>>>, s: Seq<u64>, params: Params) -> bool {
    let l = params.l as nat;
    let q = params.q as nat;
    let nn = params.n_expanded as nat;
    forall|i: int, r: int|
        0 <= i < cts.len() && 0 <= r < nn ==> #[trigger] dot_prefix(
            cts[i][r],
            powers_of_2_spec(s, l, q),
            nn,
        ) % (q as int) == (bit_decomp_spec(s, l)[i] * powers_of_2_spec(s, l, q)[r]) % (q as int)
}

/// What the homomorphic linear combination carries over its first `k` terms.
pub open spec fn combination_carries(
    cts: Seq<Seq<Seq<u64>>>,
    coefs: Seq<u64>,
    s: Seq<u64>,
    k: nat,
    params: Params,
) -> bool {
    let l = params.l as nat;
    let q = params.q as nat;
    let nn = params.n_expanded as nat;
    let po = powers_of_2_spec(s, l, q);
    let sum = dot_prefix(coefs, bit_decomp_spec(s, l), k);
    match crate::bootstrap::combination_prefix(cts, coefs, k, params) {
        None => sum == 0,
        Some(acc) => {
            &&& acc.len() == nn
            &&& forall|r: int| 0 <= r < nn ==> (#[trigger] acc[r]).len() == nn
            &&& forall|r: int|
                0 <= r < nn ==> #[trigger] dot_prefix(acc[r], po, nn) % (q as int) == (sum * po[r])
                    % (q as int)
        },
    }
}

/// Over a noise-free key, the combination of the first `k` terms encrypts
/// sum_i coefs[i] * BitDecomp(s)[i] without noise.
proof fn lemma_combination_prefix(
    cts: Seq<Seq<Seq<u64>>>,
    coefs: Seq<u64>,
    s: Seq<u64>,
    k: nat,
    params: Params,
)
    requires
        params.wf(),
        s.len() == params.n + 1,
        crate::bootstrap::ek_wf(cts, params),
        noise_free_key(cts, s, params),
        coefs.len() == params.n_expanded,
        k <= coefs.len(),
    ensures
        combination_carries(cts, coefs, s, k, params),
    decreases k,
{
    let l = params.l as nat;
    let q = params.q as nat;
    let qi = q as int;
    let nn = params.n_expanded as nat;
    let po = powers_of_2_spec(s, l, q);
    let w = bit_decomp_spec(s, l);
    lemma_params_bounds(&params, l);
    if k == 0 {
    } else {
        let j = (k - 1) as nat;
        lemma_combination_prefix(cts, coefs, s, j, params);
        let c = coefs[j as int] as int;
        let prev_sum = dot_prefix(coefs, w, j);
        let sum = dot_prefix(coefs, w, k);
        assert(sum == prev_sum + c * w[j as int]);
        if c != 0 {
            let ct = cts[j as int];
            assert(crate::gsw::ct_wf(ct, params));
            let scaled = crate::bootstrap::scale_entries(ct, c, q);
            let term = flatten_rows(scaled, l, q);
            assert forall|r: int| 0 <= r < nn implies (#[trigger] term[r]).len() == nn && dot_prefix(
                term[r],
                po,
                nn,
            ) % qi == (c * w[j as int] * po[r]) % qi by {
                assert(scaled[r] == Seq::new(ct[r].len(), |x: int| ((ct[r][x] * c) % qi) as u64));
                lemma_flatten_len_bits(scaled[r], params);
                lemma_flatten_keeps_dot(scaled[r], s, params);
                lemma_dot_scaled(ct[r], c, po, q, nn);
                let d = dot_prefix(ct[r], po, nn);
                assert(d % qi == (w[j as int] * po[r]) % qi);
                lemma_mul_mod_noop_right(c, d, qi);
                lemma_mul_mod_noop_right(c, w[j as int] * po[r], qi);
                assert(c * (w[j as int] * po[r]) == c * w[j as int] * po[r]) by (nonlinear_arith);
            }
            match crate::bootstrap::combination_prefix(cts, coefs, j, params) {
                None => {
                    assert(prev_sum == 0);
                    assert(sum == c * w[j as int]);
                },
                Some(acc) => {
                    let added = crate::gsw::sum_entries(acc, term, q);
                    let next = flatten_rows(added, l, q);
                    assert forall|r: int| 0 <= r < nn implies (#[trigger] next[r]).len() == nn
                        && dot_prefix(next[r], po, nn) % qi == (sum * po[r]) % qi by {
                        let row = added[r];
                        assert(row == Seq::new(
                            acc[r].len(),
                            |x: int| ((acc[r][x] + term[r][x]) % (q as int)) as u64,
                        ));
                        lemma_flatten_len_bits(row, params);
                        lemma_flatten_keeps_dot(row, s, params);
                        lemma_dot_sum_entries(acc[r], term[r], po, q, nn);
                        lemma_sum_congruent(
                            dot_prefix(acc[r], po, nn),
                            prev_sum * po[r],
                            dot_prefix(term[r], po, nn),
                            c * w[j as int] * po[r],
                            qi,
                        );
                        assert(prev_sum * po[r] + c * w[j as int] * po[r] == sum * po[r]) by (
                        nonlinear_arith)
                            requires
                                sum == prev_sum + c * w[j as int],
                        ;
                    }
                },
            }
        }
    }
}

/// Bootstrapping over a noise-free evaluation key: every row `r` of the result
/// against PowersOf2(s) is the clear linear part of decryption of `ct` times
/// PowersOf2(s)[r], mod q.
pub proof fn lemma_bootstrap_noise_free(
    params: Params,
    s: Seq<u64>,
    ct: Seq<Seq<u64>>,
    cts: Seq<Seq<Seq<u64>>>,
)
    requires
        params.wf(),
        s.len() == params.n + 1,
        all_below(s, params.q as nat),
        crate::gsw::ct_wf(ct, params),
        crate::bootstrap::ek_wf(cts, params),
        noise_free_key(cts, s, params),
    ensures
        forall|r: int|
            0 <= r < params.n_expanded ==> #[trigger] dot_prefix(
                crate::bootstrap::linear_combination(
                    cts,
                    crate::bootstrap::bootstrap_coefficients(ct[params.l - 1], params),
                    params,
                )[r],
                powers_of_2_spec(s, params.l as nat, params.q as nat),
                params.n_expanded as nat,
            ) % (params.q as int) == (crate::gsw::linear_part(s, ct, params) * powers_of_2_spec(
                s,
                params.l as nat,
                params.q as nat,
            )[r]) % (params.q as int),
{
    let l = params.l as nat;
    let q = params.q as nat;
    let qi = q as int;
    let nn = params.n_expanded as nat;
    let n1 = (params.n + 1) as nat;
    let po = powers_of_2_spec(s, l, q);
    let w = bit_decomp_spec(s, l);
    let c = ct[params.l - 1];
    let g = bit_decomp_inverse_spec(c, l, q);
    let coefs = crate::bootstrap::bootstrap_coefficients(c, params);
    lemma_params_bounds(&params, l);
    crate::params::lemma_wf_q_bounds(params);
    lemma_coefficients_are_powers(c, params);
    lemma_div_by_multiple(n1 as int, l as int);
    lemma_mul_is_commutative(n1 as int, l as int);
    assert(g.len() == n1);
    lemma_combination_prefix(cts, coefs, s, nn, params);
    // sum_i coefs[i] * BitDecomp(s)[i] is the clear linear part, mod q.
    let sum = dot_prefix(coefs, w, nn);
    lemma_dot_symmetric(coefs, w, nn);
    lemma_gadget_identity(s, g, params);
    lemma_dot_symmetric(s, g, n1);
    lemma_powers_blocks(c, s, params, n1);
    let lin = crate::gsw::linear_part(s, ct, params);
    assert(lin == dot_prefix(c, po, nn) % qi);
    lemma_mod_mod(dot_prefix(c, po, nn), qi, 1);
    assert(sum % qi == lin % qi);
    assert forall|r: int| 0 <= r < nn implies #[trigger] dot_prefix(
        crate::bootstrap::linear_combination(cts, coefs, params)[r],
        po,
        nn,
    ) % qi == (lin * po[r]) % qi by {
        lemma_mul_mod_noop_left(sum, po[r] as int, qi);
        lemma_mul_mod_noop_left(lin, po[r] as int, qi);
        match crate::bootstrap::combination_prefix(cts, coefs, nn, params) {
            None => {
                let z = crate::bootstrap::zero_matrix(nn);
                lemma_dot_zeros(z[r], po, nn);
                lemma_small_mod(0, q);
                assert(sum == 0);
            },
            Some(acc) => {},
        }
    }
}

} // verus!
