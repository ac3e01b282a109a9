//! Bootstrapping: the evaluation key holds encryptions of the bits of the
//! secret key, and a ciphertext is refreshed by evaluating the linear part of
//! its decryption homomorphically over them.

use vstd::prelude::*;
use vstd::arithmetic::div_mod::*;
use vstd::arithmetic::mul::*;
use vstd::arithmetic::power2::*;
use rand_chacha::ChaCha20Rng;
use crate::gadget::{
    all_below, bit_decomp, bit_decomp_spec, flatten, flatten_rows, flatten_spec,
    lemma_bit_decomp_bits, lemma_pow2_mono, powers_of_2, rows_view,
};
use crate::gsw::{
    build_table, ct_wf, encrypt_with_table, homomorphic_add, is_encryption, lemma_ct_wf_from_rows,
    lemma_flatten_len_bits, linear_part, sum_entries, table_fits, Ciphertext, GswPublicKey,
    GswSecretKey,
};
use crate::linalg::dot_mod;
use crate::modular::reduce;
use crate::params::{lemma_wf_q_bounds, Params};

verus! {

/// Evaluation key: the encryption of each bit of BitDecomp(s).
#[derive(Clone, Debug)]
pub struct EvaluationKey {
    /// Entry `i` encrypts bit `i` of BitDecomp(s).
    pub encryptions: Vec<Ciphertext>,
    /// The parameters the key was made for.
    pub params: Params,
}

/// The ciphertexts of the key, each as a sequence of rows.
pub open spec fn ek_view(ek: EvaluationKey) -> Seq<Seq<Seq<u64>>> {
    ek.encryptions@.map_values(|c: Ciphertext| rows_view(c@))
}

/// N ciphertexts, each N x N over Z_q.
pub open spec fn ek_wf(cts: Seq<Seq<Seq<u64>>>, params: Params) -> bool {
    &&& cts.len() == params.n_expanded
    &&& forall|i: int| 0 <= i < cts.len() ==> ct_wf(#[trigger] cts[i], params)
}

/// The sum of `c[start + j] * 2^(k + j)` over `j < len`.
pub open spec fn shifted_block_sum(c: Seq<u64>, start: int, k: nat, len: nat) -> int
    decreases len,
{
    if len == 0 {
        0
    } else {
        shifted_block_sum(c, start, k, (len - 1) as nat) + c[start + len - 1] * pow2(
            (k + len - 1) as nat,
        )
    }
}

/// Coefficient `i`, with block = i / l and k = i mod l, is the sum of
/// `c[block * l + j] * 2^(k + j)` over `j < l`, mod q.
pub open spec fn bootstrap_coefficients(c: Seq<u64>, params: Params) -> Seq<u64> {
    let l = params.l as int;
    Seq::new(
        params.n_expanded as nat,
        |i: int|
            (shifted_block_sum(c, (i / l) * l, (i % l) as nat, l as nat) % (params.q as int)) as u64,
    )
}

/// Every entry times `coef`, mod q.
pub open spec fn scale_entries(c: Seq<Seq<u64>>, coef: int, q: nat) -> Seq<Seq<u64>> {
    Seq::new(c.len(), |i: int| Seq::new(c[i].len(), |j: int| ((c[i][j] * coef) % (q as int)) as u64))
}

/// The homomorphic sum of `coefs[i] (.) cts[i]` over the first `k` terms with a
/// nonzero coefficient, where `coef (.) c` = Flatten(coef * c): the first such
/// term starts the sum and each later one is added with the homomorphic addition.
pub open spec fn combination_prefix(
    cts: Seq<Seq<Seq<u64>>>,
    coefs: Seq<u64>,
    k: nat,
    params: Params,
) -> Option<Seq<Seq<u64>>>
    decreases k,
{
    if k == 0 {
        None
    } else {
        let prev = combination_prefix(cts, coefs, (k - 1) as nat, params);
        let c = coefs[k - 1];
        if c == 0 {
            prev
        } else {
            let l = params.l as nat;
            let q = params.q as nat;
            let term = flatten_rows(scale_entries(cts[k - 1], c as int, q), l, q);
            match prev {
                None => Some(term),
                Some(acc) => Some(flatten_rows(sum_entries(acc, term, q), l, q)),
            }
        }
    }
}

/// The N x N zero matrix.
pub open spec fn zero_matrix(n: nat) -> Seq<Seq<u64>> {
    Seq::new(n, |i: int| Seq::new(n, |j: int| 0u64))
}

/// The homomorphic linear combination, or the zero matrix when every coefficient is zero.
pub open spec fn linear_combination(cts: Seq<Seq<Seq<u64>>>, coefs: Seq<u64>, params: Params) -> Seq<
    Seq<u64>,
> {
    match combination_prefix(cts, coefs, coefs.len(), params) {
        Some(acc) => acc,
        None => zero_matrix(params.n_expanded as nat),
    }
}

/// Generates the evaluation key: encrypts each bit of BitDecomp(s) under `pk`,
/// with fresh randomness for each.
pub fn gen_evaluation_key(rng: &mut ChaCha20Rng, sk: &GswSecretKey, pk: &GswPublicKey) -> (ek:
    EvaluationKey)
    requires
        sk.wf(),
        pk.wf(),
        sk.params == pk.params,
    ensures
        ek.params == sk.params,
        ek_wf(ek_view(ek), sk.params),
        forall|i: int|
            0 <= i < ek.encryptions@.len() ==> is_encryption(
                *pk,
                bit_decomp_spec(sk.s@, sk.params.l as nat)[i] as int,
                #[trigger] ek_view(ek)[i],
            ),
{
    let params = sk.params();
    let bits = bit_decomp(sk.s.as_slice(), params);
    let ghost want = bit_decomp_spec(sk.s@, params.l as nat);
    proof {
        lemma_bit_decomp_bits(sk.s@, params.l as nat);
        assert(bits@.len() == params.n_expanded) by (nonlinear_arith)
            requires
                bits@.len() == sk.s@.len() * params.l,
                sk.s@.len() == params.n + 1,
                params.n_expanded == (params.n + 1) * params.l,
        ;
    }
    let table = build_table(pk);
    let mut encryptions: Vec<Ciphertext> = Vec::new();
    let mut i: usize = 0;
    while i < bits.len()
        invariant
            pk.wf(),
            pk.params.m <= 0x1000_0000 ==> table_fits(
                table@,
                rows_view(pk.a@),
                (pk.params.n + 1) as nat,
                pk.params.q as nat,
            ),
            sk.params == pk.params,
            *params == sk.params,
            bits@ == want,
            all_below(bits@, 2),
            bits@.len() == params.n_expanded,
            0 <= i <= bits@.len(),
            encryptions@.len() == i,
            forall|t: int|
                0 <= t < i ==> ct_wf(rows_view((#[trigger] encryptions@[t])@), *params),
            forall|t: int|
                0 <= t < i ==> is_encryption(
                    *pk,
                    want[t] as int,
                    rows_view((#[trigger] encryptions@[t])@),
                ),
        decreases bits@.len() - i,
    {
        let c = encrypt_with_table(rng, pk, bits[i] as u8, &table);
        encryptions.push(c);
        i = i + 1;
    }
    let ek = EvaluationKey { encryptions, params: *params };
    proof {
        assert forall|t: int| 0 <= t < ek_view(ek).len() implies ct_wf(
            #[trigger] ek_view(ek)[t],
            *params,
        ) by {
            assert(ek_view(ek)[t] == rows_view(ek.encryptions@[t]@));
        }
        assert forall|t: int| 0 <= t < ek.encryptions@.len() implies is_encryption(
            *pk,
            want[t] as int,
            #[trigger] ek_view(ek)[t],
        ) by {
            assert(ek_view(ek)[t] == rows_view(ek.encryptions@[t]@));
        }
    }
    ek
}

/// `coeff (.) ct`: every entry of `ct` times `coeff` mod q, then Flatten, row by row.
fn scale_flatten(params: &Params, ct: &Ciphertext, coeff: u64) -> (r: Ciphertext)
    requires
        params.wf(),
        ct_wf(rows_view(ct@), *params),
        coeff < params.q,
    ensures
        rows_view(r@) == flatten_rows(
            scale_entries(rows_view(ct@), coeff as int, params.q as nat),
            params.l as nat,
            params.q as nat,
        ),
        ct_wf(rows_view(r@), *params),
{
    let n = params.n_expanded;
    let q = params.q;
    let ghost c = rows_view(ct@);
    let ghost want = scale_entries(c, coeff as int, q as nat);
    proof {
        lemma_wf_q_bounds(*params);
    }
    let mut scaled: Vec<Vec<u64>> = Vec::with_capacity(n);
    let mut i: usize = 0;
    while i < n
        invariant
            params.wf(),
            n == params.n_expanded,
            q == params.q,
            2 <= q <= 0x8000_0000,
            coeff < q,
            c == rows_view(ct@),
            ct_wf(c, *params),
            want == scale_entries(c, coeff as int, q as nat),
            0 <= i <= n,
            scaled@.len() == i,
            forall|t: int|
                0 <= t < i ==> (#[trigger] scaled@[t])@ == flatten_spec(
                    want[t],
                    params.l as nat,
                    q as nat,
                ),
            forall|t: int|
                0 <= t < i ==> (#[trigger] scaled@[t])@.len() == n && all_below(
                    scaled@[t]@,
                    q as nat,
                ),
        decreases n - i,
    {
        let row_in = &ct[i];
        assert(all_below(c[i as int], q as nat));
        let mut row: Vec<u64> = Vec::with_capacity(n);
        let mut j: usize = 0;
        while j < n
            invariant
                params.wf(),
                q == params.q,
                2 <= q <= 0x8000_0000,
                coeff < q,
                0 <= i < n,
                c.len() == n,
                row_in@ == c[i as int],
                row_in@.len() == n,
                all_below(row_in@, q as nat),
                want == scale_entries(c, coeff as int, q as nat),
                0 <= j <= n,
                row@.len() == j,
                forall|t: int| 0 <= t < j ==> #[trigger] row@[t] == want[i as int][t],
                all_below(row@, q as nat),
            decreases n - j,
        {
            let x = row_in[j];
            assert(x * coeff <= 0x8000_0000 * 0x8000_0000) by (nonlinear_arith)
                requires
                    x < q,
                    coeff < q,
                    q <= 0x8000_0000,
            ;
            let v = reduce(x * coeff, params);
            row.push(v);
            j = j + 1;
        }
        proof {
            assert(row@ =~= want[i as int]);
        }
        let flat = flatten(row.as_slice(), params);
        proof {
            lemma_flatten_len_bits(row@, *params);
        }
        scaled.push(flat);
        i = i + 1;
    }
    proof {
        assert(rows_view(scaled@) =~= flatten_rows(want, params.l as nat, q as nat));
        lemma_ct_wf_from_rows(scaled@, *params);
    }
    scaled
}

/// The view of an optional accumulator.
pub open spec fn opt_rows_view(o: Option<Vec<Vec<u64>>>) -> Option<Seq<Seq<u64>>> {
    match o {
        Some(a) => Some(rows_view(a@)),
        None => None,
    }
}

/// A present accumulator is a ciphertext.
pub open spec fn opt_ct_wf(o: Option<Vec<Vec<u64>>>, params: Params) -> bool {
    match o {
        Some(a) => ct_wf(rows_view(a@), params),
        None => true,
    }
}

/// Homomorphic linear combination: the homomorphic sum of `coefficients[i] (.) cts[i]`
/// over the nonzero coefficients, in order, or the zero matrix if there are none.
fn homomorphic_linear_fixed(params: &Params, cts: &[Ciphertext], coefficients: &[u64]) -> (r:
    Ciphertext)
    requires
        params.wf(),
        cts@.len() == coefficients@.len(),
        forall|i: int| 0 <= i < cts@.len() ==> ct_wf(rows_view((#[trigger] cts@[i])@), *params),
        all_below(coefficients@, params.q as nat),
    ensures
        rows_view(r@) == linear_combination(
            cts@.map_values(|c: Ciphertext| rows_view(c@)),
            coefficients@,
            *params,
        ),
        ct_wf(rows_view(r@), *params),
{
    let n = params.n_expanded;
    let ghost cv = cts@.map_values(|c: Ciphertext| rows_view(c@));
    let mut result: Option<Vec<Vec<u64>>> = None;
    let mut idx: usize = 0;
    while idx < cts.len()
        invariant
            params.wf(),
            n == params.n_expanded,
            cts@.len() == coefficients@.len(),
            forall|i: int| 0 <= i < cts@.len() ==> ct_wf(rows_view((#[trigger] cts@[i])@), *params),
            all_below(coefficients@, params.q as nat),
            cv == cts@.map_values(|c: Ciphertext| rows_view(c@)),
            0 <= idx <= cts@.len(),
            opt_rows_view(result) == combination_prefix(cv, coefficients@, idx as nat, *params),
            opt_ct_wf(result, *params),
        decreases cts@.len() - idx,
    {
        let coeff = coefficients[idx];
        if coeff != 0 {
            let ct = &cts[idx];
            let scaled_flat = scale_flatten(params, ct, coeff);
            proof {
                assert(cv[idx as int] == rows_view(ct@));
            }
            result = match result {
                None => Some(scaled_flat),
                Some(acc) => Some(homomorphic_add(params, &acc, &scaled_flat)),
            };
        }
        idx = idx + 1;
    }
    match result {
        Some(acc) => acc,
        None => {
            let mut zeros: Vec<Vec<u64>> = Vec::new();
            let mut i: usize = 0;
            proof {
                lemma_wf_q_bounds(*params);
            }
            while i < n
                invariant
                    params.wf(),
                    n == params.n_expanded,
                    2 <= params.q,
                    0 <= i <= n,
                    zeros@.len() == i,
                    forall|t: int|
                        0 <= t < i ==> (#[trigger] zeros@[t])@ == zero_matrix(n as nat)[t],
                decreases n - i,
            {
                let mut row: Vec<u64> = Vec::new();
                let mut j: usize = 0;
                while j < n
                    invariant
                        0 <= j <= n,
                        row@.len() == j,
                        forall|t: int| 0 <= t < j ==> #[trigger] row@[t] == 0,
                    decreases n - j,
                {
                    row.push(0);
                    j = j + 1;
                }
                proof {
                    assert(row@ =~= zero_matrix(n as nat)[i as int]);
                }
                zeros.push(row);
                i = i + 1;
            }
            proof {
                assert(rows_view(zeros@) =~= zero_matrix(n as nat));
                assert forall|t: int| 0 <= t < n implies all_below(
                    #[trigger] rows_view(zeros@)[t],
                    params.q as nat,
                ) by {
                    assert(rows_view(zeros@)[t] == zero_matrix(n as nat)[t]);
                }
            }
            zeros
        },
    }
}

/// The clear linear part of decryption: row l - 1 of `ct` times PowersOf2(s), mod q.
pub fn decrypt_linear_part_clear(sk: &GswSecretKey, ct: &Ciphertext) -> (r: u64)
    requires
        sk.wf(),
        ct_wf(rows_view(ct@), sk.params),
    ensures
        r as int == linear_part(sk.s@, rows_view(ct@), sk.params),
        r < sk.params.q,
{
    let params = sk.params();
    let q = params.q;
    let l = params.l;
    let n_expanded = params.n_expanded;
    proof {
        lemma_wf_q_bounds(*params);
    }
    let v = powers_of_2(sk.s.as_slice(), params);
    proof {
        assert(v@.len() == n_expanded) by (nonlinear_arith)
            requires
                v@.len() == sk.s@.len() * l,
                sk.s@.len() == params.n + 1,
                n_expanded == (params.n + 1) * l,
        ;
    }
    let row_idx = l - 1;
    let row = &ct[row_idx];
    assert(all_below(rows_view(ct@)[row_idx as int], q as nat));
    dot_mod(row.as_slice(), v.as_slice(), n_expanded, params)
}

/// Bootstrap: computes the coefficients of row l - 1 of `noisy_ct` against the
/// bits of BitDecomp(s) and evaluates their linear combination over the
/// evaluation key.
pub fn bootstrap(params: &Params, noisy_ct: &Ciphertext, ek: &EvaluationKey) -> (r: Ciphertext)
    requires
        params.wf(),
        ct_wf(rows_view(noisy_ct@), *params),
        ek_wf(ek_view(*ek), *params),
    ensures
        rows_view(r@) == linear_combination(
            ek_view(*ek),
            bootstrap_coefficients(rows_view(noisy_ct@)[params.l - 1], *params),
            *params,
        ),
        ct_wf(rows_view(r@), *params),
{
    let l = params.l;
    let n_expanded = params.n_expanded;
    let q = params.q;
    proof {
        lemma_wf_q_bounds(*params);
    }
    let row_idx = l - 1;
    let c_row = &noisy_ct[row_idx];
    let ghost c = c_row@;
    let ghost want = bootstrap_coefficients(rows_view(noisy_ct@)[row_idx as int], *params);
    assert(all_below(rows_view(noisy_ct@)[row_idx as int], q as nat));
    assert(c == rows_view(noisy_ct@)[row_idx as int]);
    let mut coefficients: Vec<u64> = Vec::with_capacity(n_expanded);
    let mut i: usize = 0;
    while i < n_expanded
        invariant
            params.wf(),
            l == params.l,
            q == params.q,
            n_expanded == params.n_expanded,
            2 <= q <= 0x8000_0000,
            c == c_row@,
            c.len() == n_expanded,
            all_below(c, q as nat),
            want == bootstrap_coefficients(c, *params),
            0 <= i <= n_expanded,
            coefficients@.len() == i,
            forall|t: int| 0 <= t < i ==> #[trigger] coefficients@[t] == want[t],
            all_below(coefficients@, q as nat),
        decreases n_expanded - i,
    {
        let block = i / l;
        let k = i % l;
        proof {
            lemma_fundamental_div_mod(i as int, l as int);
            lemma_mul_is_commutative(block as int, l as int);
            lemma_pow2_strictly_increases(k as nat, l as nat);
            lemma_u64_shl_is_mul_one(k);
            lemma_block_end(i as int, l as int, n_expanded as int, params.n as int);
        }
        let mut p: u64 = 1u64 << (k as u64);
        let mut coef: u64 = 0;
        let mut j_bit: usize = 0;
        proof {
            lemma_small_mod(p as nat, q as nat);
            lemma_small_mod(0, q as nat);
        }
        while j_bit < l
            invariant
                params.wf(),
                l == params.l,
                q == params.q,
                2 <= q <= 0x8000_0000,
                c == c_row@,
                c.len() == n_expanded,
                all_below(c, q as nat),
                block * l + l <= n_expanded,
                k < l,
                0 <= j_bit <= l,
                p as int == (pow2((k + j_bit) as nat) as int) % (q as int),
                p < q,
                coef as int == shifted_block_sum(c, block * l, k as nat, j_bit as nat) % (q as int),
                coef < q,
            decreases l - j_bit,
        {
            let j = block * l + j_bit;
            let x = c_row[j];
            assert(x * p <= 0x8000_0000 * 0x8000_0000) by (nonlinear_arith)
                requires
                    x < q,
                    p < q,
                    q <= 0x8000_0000,
            ;
            let term = (x * p) % q;
            proof {
                let e = (k + j_bit) as nat;
                let s = shifted_block_sum(c, block * l, k as nat, j_bit as nat);
                lemma_mul_mod_noop_right(x as int, pow2(e) as int, q as int);
                lemma_add_mod_noop(s, x * pow2(e), q as int);
                lemma_mod_mod(s, q as int, 1);
                lemma_mod_mod(x * pow2(e), q as int, 1);
                lemma_pow2_unfold(e + 1);
                lemma_mul_mod_noop_left(pow2(e) as int, 2, q as int);
                assert(shifted_block_sum(c, block * l, k as nat, (j_bit + 1) as nat) == s + x
                    * pow2(e));
            }
            coef = (coef + term) % q;
            p = (p * 2) % q;
            j_bit = j_bit + 1;
        }
        coefficients.push(coef);
        i = i + 1;
    }
    proof {
        assert(coefficients@ =~= want);
        assert(ek_view(*ek) == ek.encryptions@.map_values(|c: Ciphertext| rows_view(c@)));
        assert forall|t: int| 0 <= t < ek.encryptions@.len() implies ct_wf(
            rows_view((#[trigger] ek.encryptions@[t])@),
            *params,
        ) by {
            assert(ek_view(*ek)[t] == rows_view(ek.encryptions@[t]@));
        }
    }
    homomorphic_linear_fixed(params, ek.encryptions.as_slice(), coefficients.as_slice())
}

/// `1 << k` is 2^k.
proof fn lemma_u64_shl_is_mul_one(k: usize)
    requires
        k < 31,
    ensures
        (1u64 << (k as u64)) == pow2(k as nat),
{
    lemma_pow2_mono(k as nat, 31);
    lemma2_to64();
    vstd::bits::lemma_u64_shl_is_mul(1, k as u64);
}

/// The block of position `i < N` ends within N.
proof fn lemma_block_end(i: int, l: int, n_expanded: int, n: int)
    requires
        0 <= i < n_expanded,
        0 < l,
        0 <= n,
        n_expanded == (n + 1) * l,
    ensures
        (i / l) * l + l <= n_expanded,
{
    lemma_fundamental_div_mod(i, l);
    lemma_mul_is_commutative(i / l, l);
    lemma_div_pos_is_pos(i, l);
    lemma_mod_pos_bound(i, l);
    if i / l > n {
        lemma_mul_inequality(n + 1, i / l, l);
    } else {
        lemma_mul_inequality(i / l + 1, n + 1, l);
        lemma_mul_is_distributive_add_other_way(l, i / l, 1);
    }
}

} // verus!
