//! GSW encryption of single bits as N x N matrices over Z_q, decryption, and
//! the homomorphic gates.

use vstd::prelude::*;
use vstd::arithmetic::div_mod::*;
use vstd::arithmetic::mul::*;
use vstd::arithmetic::power2::*;
use rand_chacha::ChaCha20Rng;
use crate::gadget::{
    all_below, bit_decomp, bit_decomp_inverse_spec, bit_decomp_spec, flatten, flatten_rows,
    flatten_spec, lemma_bit_decomp_bits, lemma_flatten_of_bits, powers_of_2, powers_of_2_spec, rows_below, rows_view,
};
use crate::linalg::{
    bits_times_table, dot_mod, dot_prefix, group_count, group_sum, group_table, mat_mul, row_times,
    row_times_mod,
};
use crate::lwe::{keygen, PublicKey, SecretKey};
use crate::modular::{mod_q, mod_q_centered, reduce};
use crate::params::{lemma_wf_q_bounds, Params};
use crate::sampling::rand_word;

verus! {

/// A GSW ciphertext: an N x N matrix over Z_q, row by row.
pub type Ciphertext = Vec<Vec<u64>>;

/// The GSW secret key is the LWE secret key.
pub type GswSecretKey = SecretKey;

/// The GSW public key is the LWE public key.
pub type GswPublicKey = PublicKey;

/// N rows of length N, every entry in Z_q.
pub open spec fn ct_wf(c: Seq<Seq<u64>>, params: Params) -> bool {
    &&& c.len() == params.n_expanded
    &&& forall|i: int| 0 <= i < c.len() ==> (#[trigger] c[i]).len() == params.n_expanded
    &&& rows_below(c, params.q as nat)
}

/// `row` with `bit` added to its entry `i`, mod q.
pub open spec fn add_to_entry(row: Seq<u64>, i: int, bit: int, q: nat) -> Seq<u64> {
    Seq::new(
        row.len(),
        |j: int|
            if j == i {
                ((row[j] + bit) % (q as int)) as u64
            } else {
                row[j]
            },
    )
}

/// Row `i` of the encryption of `bit` under the public matrix `a` with the
/// mask row `r_row`: Flatten(BitDecomp(r_row * A) + bit * e_i).
pub open spec fn encryption_row(a: Seq<Seq<u64>>, bit: int, r_row: Seq<u64>, i: int, params: Params) -> Seq<u64> {
    let l = params.l as nat;
    let q = params.q as nat;
    flatten_spec(
        add_to_entry(bit_decomp_spec(row_times(r_row, a, (params.n + 1) as nat, q), l), i, bit, q),
        l,
        q,
    )
}

/// Flatten(BitDecomp(R * A) + bit * I).
pub open spec fn encrypt_spec(a: Seq<Seq<u64>>, bit: int, r: Seq<Seq<u64>>, params: Params) -> Seq<Seq<u64>> {
    Seq::new(r.len(), |i: int| encryption_row(a, bit, r[i], i, params))
}

/// R is an N x m matrix of bits.
pub open spec fn valid_mask(r: Seq<Seq<u64>>, params: Params) -> bool {
    &&& r.len() == params.n_expanded
    &&& forall|i: int| 0 <= i < r.len() ==> (#[trigger] r[i]).len() == params.m
    &&& rows_below(r, 2)
}

/// `c` is the encryption of `bit` under `pk` for some mask R.
pub open spec fn is_encryption(pk: PublicKey, bit: int, c: Seq<Seq<u64>>) -> bool {
    exists|r: Seq<Seq<u64>>|
        valid_mask(r, pk.params) && c == #[trigger] encrypt_spec(rows_view(pk.a@), bit, r, pk.params)
}

/// Entry-wise sum mod q.
pub open spec fn sum_entries(c1: Seq<Seq<u64>>, c2: Seq<Seq<u64>>, q: nat) -> Seq<Seq<u64>> {
    Seq::new(
        c1.len(),
        |i: int| Seq::new(c1[i].len(), |j: int| ((c1[i][j] + c2[i][j]) % (q as int)) as u64),
    )
}

/// I - p, entry-wise mod q.
pub open spec fn identity_minus(p: Seq<Seq<u64>>, q: nat) -> Seq<Seq<u64>> {
    Seq::new(
        p.len(),
        |i: int|
            Seq::new(
                p[i].len(),
                |j: int| (((if i == j { 1int } else { 0int }) - p[i][j]) % (q as int)) as u64,
            ),
    )
}

/// The clear linear part of decryption: row l - 1 of `c` times PowersOf2(s), mod q.
pub open spec fn linear_part(s: Seq<u64>, c: Seq<Seq<u64>>, params: Params) -> int {
    let l = params.l as nat;
    let q = params.q as nat;
    dot_prefix(c[l - 1], powers_of_2_spec(s, l, q), params.n_expanded as nat) % (q as int)
}

/// The representative of `d` in `(-q/2, q/2]`, for `d` in `[0, q)`.
pub open spec fn centered(d: int, q: int) -> int {
    if d > q / 2 {
        d - q
    } else {
        d
    }
}

/// round(|d| / scale) mod 2, computed as ((|d| + scale/2) / scale) mod 2.
pub open spec fn round_to_bit(d: int, scale: int) -> int {
    (((if d < 0 { -d } else { d }) + scale / 2) / scale) % 2
}

/// The bit that decryption returns.
pub open spec fn decrypt_spec(s: Seq<u64>, c: Seq<Seq<u64>>, params: Params) -> int {
    let scale = powers_of_2_spec(s, params.l as nat, params.q as nat)[params.l - 1];
    if scale == 0 {
        0
    } else {
        round_to_bit(centered(linear_part(s, c, params), params.q as int), scale as int)
    }
}

/// For `v` in `[0, q)` with q even, a value congruent to `v` in `(-q/2, q/2]` is
/// the centered representative of `v`.
proof fn lemma_centered_unique(v: int, q: int, r: int)
    requires
        0 <= v < q,
        q % 2 == 0,
        r % q == v % q,
        -(q / 2) < r <= q / 2,
    ensures
        r == centered(v, q),
{
    lemma_small_mod(v as nat, q as nat);
    if r >= 0 {
        lemma_small_mod(r as nat, q as nat);
    } else {
        lemma_mod_multiples_vanish(1, r, q);
        lemma_small_mod((r + q) as nat, q as nat);
    }
}

/// Flatten of a row of length N is a row of N bits.
pub proof fn lemma_flatten_len_bits(row: Seq<u64>, params: Params)
    requires
        params.wf(),
        row.len() == params.n_expanded,
    ensures
        flatten_spec(row, params.l as nat, params.q as nat).len() == params.n_expanded,
        all_below(flatten_spec(row, params.l as nat, params.q as nat), 2),
        all_below(flatten_spec(row, params.l as nat, params.q as nat), params.q as nat),
{
    let l = params.l as nat;
    let q = params.q as nat;
    lemma_wf_q_bounds(params);
    lemma_div_by_multiple((params.n + 1) as int, l as int);
    lemma_mul_is_commutative((params.n + 1) as int, l as int);
    let d = bit_decomp_inverse_spec(row, l, q);
    assert(d.len() == params.n + 1);
    lemma_bit_decomp_bits(d, l);
}

/// PowersOf2 has entries in Z_q.
proof fn lemma_powers_below(b: Seq<u64>, params: Params)
    requires
        params.wf(),
    ensures
        all_below(powers_of_2_spec(b, params.l as nat, params.q as nat), params.q as nat),
        powers_of_2_spec(b, params.l as nat, params.q as nat).len() == b.len() * params.l,
{
    lemma_wf_q_bounds(params);
}

/// N = (n + 1) * l is at least l.
proof fn lemma_l_le_n_expanded(params: Params)
    requires
        params.wf(),
    ensures
        params.l <= params.n_expanded,
{
    lemma_mul_inequality(1, (params.n + 1) as int, params.l as int);
}

/// Generates a GSW key pair.
pub fn gsw_keygen(rng: &mut ChaCha20Rng, params: &Params) -> (r: (GswSecretKey, GswPublicKey))
    requires
        params.wf(),
    ensures
        exists|t: Seq<u64>, bmat: Seq<Seq<u64>>, e: Seq<i64>|
            crate::lwe::valid_samples(*params, t, bmat, e)
                && #[trigger] crate::lwe::keys_from_samples(*params, t, bmat, e, r.0, r.1)
                && forall|i: int|
                0 <= i < params.m ==> #[trigger] dot_prefix(
                    r.1.a@[i]@,
                    r.0.s@,
                    (params.n + 1) as nat,
                ) % (params.q as int) == (e[i] as int) % (params.q as int),
{
    keygen(rng, params)
}

/// `table` holds, for every group of four rows of `a` and every `v < 16`, the
/// sum of the rows selected by the bits of `v`, mod q.
pub open spec fn table_fits(table: Seq<Vec<u64>>, a: Seq<Seq<u64>>, cols: nat, q: nat) -> bool {
    &&& table.len() == 16 * group_count(a.len() as int)
    &&& forall|k: int| 0 <= k < table.len() ==> (#[trigger] table[k])@.len() == cols
    &&& forall|k: int| 0 <= k < table.len() ==> all_below((#[trigger] table[k])@, q)
    &&& forall|g: int, v: int, j: int|
        0 <= g < group_count(a.len() as int) && 0 <= v < 16 && 0 <= j < cols
            ==> #[trigger] table[16 * g + v]@[j] as int == group_sum(a, g, v as u64, j, 4) % (
        q as int)
}

/// The group table of the public matrix, when it has at most 2^28 rows.
pub(crate) fn build_table(pk: &GswPublicKey) -> (table: Vec<Vec<u64>>)
    requires
        pk.wf(),
    ensures
        pk.params.m <= 0x1000_0000 ==> table_fits(
            table@,
            rows_view(pk.a@),
            (pk.params.n + 1) as nat,
            pk.params.q as nat,
        ),
{
    let params = pk.params();
    proof {
        lemma_wf_q_bounds(*params);
    }
    if params.m <= 0x1000_0000 {
        group_table(pk.a.as_slice(), params.n + 1, params)
    } else {
        Vec::new()
    }
}

/// Encrypts `bit` under `pk` with the mask R: Flatten(BitDecomp(R * A) + bit * I).
pub fn encrypt_with_mask(pk: &GswPublicKey, bit: u8, r: &[Vec<u64>]) -> (c: Ciphertext)
    requires
        pk.wf(),
        bit <= 1,
        valid_mask(rows_view(r@), pk.params),
    ensures
        rows_view(c@) == encrypt_spec(rows_view(pk.a@), bit as int, rows_view(r@), pk.params),
        ct_wf(rows_view(c@), pk.params),
{
    let table = build_table(pk);
    encrypt_rows(pk, bit, r, &table)
}

/// The rows of the encryption of `bit` with mask R, using the group table of
/// the public matrix where it was built.
fn encrypt_rows(pk: &GswPublicKey, bit: u8, r: &[Vec<u64>], table: &Vec<Vec<u64>>) -> (c: Ciphertext)
    requires
        pk.wf(),
        bit <= 1,
        valid_mask(rows_view(r@), pk.params),
        pk.params.m <= 0x1000_0000 ==> table_fits(
            table@,
            rows_view(pk.a@),
            (pk.params.n + 1) as nat,
            pk.params.q as nat,
        ),
    ensures
        rows_view(c@) == encrypt_spec(rows_view(pk.a@), bit as int, rows_view(r@), pk.params),
        ct_wf(rows_view(c@), pk.params),
{
    let params = pk.params();
    let n_expanded = params.n_expanded;
    let q = params.q;
    let l = params.l;
    proof {
        lemma_wf_q_bounds(*params);
    }
    let cols = params.n + 1;
    let ghost am = rows_view(pk.a@);
    let ghost rm = rows_view(r@);
    let m = params.m;
    let fast = m <= 0x1000_0000;
    let mut result: Vec<Vec<u64>> = Vec::with_capacity(n_expanded);
    let mut i: usize = 0;
    while i < n_expanded
        invariant
            pk.wf(),
            *params == pk.params,
            n_expanded == params.n_expanded,
            q == params.q,
            l == params.l,
            cols == params.n + 1,
            m == params.m,
            2 <= q <= 0x8000_0000,
            bit <= 1,
            am == rows_view(pk.a@),
            fast == (m <= 0x1000_0000),
            fast ==> table_fits(table@, am, cols as nat, q as nat),
            rm == rows_view(r@),
            valid_mask(rm, *params),
            0 <= i <= n_expanded,
            result@.len() == i,
            forall|t: int|
                0 <= t < i ==> (#[trigger] result@[t])@ == encryption_row(
                    am,
                    bit as int,
                    rm[t],
                    t,
                    *params,
                ),
            forall|t: int|
                0 <= t < i ==> (#[trigger] result@[t])@.len() == n_expanded && all_below(
                    result@[t]@,
                    q as nat,
                ),
        decreases n_expanded - i,
    {
        let r_row = &r[i];
        assert(all_below(rm[i as int], 2));
        assert(all_below(r_row@, q as nat));
        assert(r_row@.len() == pk.a@.len());
        let ra = if fast {
            bits_times_table(r_row.as_slice(), table.as_slice(), cols, params, Ghost(am))
        } else {
            row_times_mod(r_row.as_slice(), pk.a.as_slice(), cols, params)
        };
        let mut bd = bit_decomp(ra.as_slice(), params);
        proof {
            lemma_bit_decomp_bits(ra@, l as nat);
            assert(bd@.len() == n_expanded);
        }
        let ghost bd0 = bd@;
        let x = mod_q(bd[i] as i64 + bit as i64, q);
        bd.set(i, x);
        proof {
            assert(bd@ =~= add_to_entry(bd0, i as int, bit as int, q as nat));
            assert(all_below(bd@, q as nat));
        }
        proof {
            lemma_flatten_len_bits(bd@, *params);
        }
        // A row that is already made of bits is its own Flatten.
        let flat = if x <= 1 {
            proof {
                lemma_mod_multiples_basic((params.n + 1) as int, l as int);
                assert(all_below(bd@, 2));
                lemma_flatten_of_bits(bd@, *params);
            }
            bd
        } else {
            flatten(bd.as_slice(), params)
        };
        result.push(flat);
        i = i + 1;
    }
    proof {
        assert(rows_view(result@) =~= encrypt_spec(am, bit as int, rm, *params));
        lemma_ct_wf_from_rows(result@, *params);
    }
    result
}

/// A matrix whose rows all have length N and entries in Z_q is a ciphertext.
pub proof fn lemma_ct_wf_from_rows(m: Seq<Vec<u64>>, params: Params)
    requires
        m.len() == params.n_expanded,
        forall|t: int|
            0 <= t < m.len() ==> (#[trigger] m[t])@.len() == params.n_expanded && all_below(
                m[t]@,
                params.q as nat,
            ),
    ensures
        ct_wf(rows_view(m), params),
{
    assert forall|t: int| 0 <= t < m.len() implies all_below(
        #[trigger] rows_view(m)[t],
        params.q as nat,
    ) by {
        assert(rows_view(m)[t] == m[t]@);
    }
}

/// Encrypts `bit` under `pk`. The N x m bit mask R is read row by row from
/// 32-bit words of `rng`, least significant bit first.
pub fn encrypt(rng: &mut ChaCha20Rng, pk: &GswPublicKey, bit: u8) -> (c: Ciphertext)
    requires
        pk.wf(),
        bit <= 1,
    ensures
        is_encryption(*pk, bit as int, rows_view(c@)),
        ct_wf(rows_view(c@), pk.params),
{
    let table = build_table(pk);
    encrypt_with_table(rng, pk, bit, &table)
}

/// `encrypt`, with the group table of the public matrix built beforehand, so
/// that several encryptions under one key can share it.
pub(crate) fn encrypt_with_table(
    rng: &mut ChaCha20Rng,
    pk: &GswPublicKey,
    bit: u8,
    table: &Vec<Vec<u64>>,
) -> (c: Ciphertext)
    requires
        pk.wf(),
        bit <= 1,
        pk.params.m <= 0x1000_0000 ==> table_fits(
            table@,
            rows_view(pk.a@),
            (pk.params.n + 1) as nat,
            pk.params.q as nat,
        ),
    ensures
        is_encryption(*pk, bit as int, rows_view(c@)),
        ct_wf(rows_view(c@), pk.params),
{
    let params = pk.params();
    let n_expanded = params.n_expanded;
    let m = params.m;
    let mut r: Vec<Vec<u64>> = Vec::with_capacity(n_expanded);
    let mut i: usize = 0;
    while i < n_expanded
        invariant
            0 <= i <= n_expanded,
            r@.len() == i,
            forall|k: int| 0 <= k < r@.len() ==> (#[trigger] r@[k])@.len() == m,
            rows_below(rows_view(r@), 2),
        decreases n_expanded - i,
    {
        let mut row: Vec<u64> = Vec::with_capacity(m);
        let mut k: usize = 0;
        while k < m
            invariant
                0 <= k <= m,
                row@.len() == k,
                all_below(row@, 2),
            decreases m - k,
        {
            let word = rand_word(rng);
            let take: u32 = if m - k >= 32 {
                32
            } else {
                (m - k) as u32
            };
            let ghost k0 = k;
            let mut shift: u32 = 0;
            while shift < take
                invariant
                    k0 < m,
                    take <= 32,
                    k0 + take <= m,
                    take > 0,
                    shift <= take,
                    row@.len() == k0 + shift,
                    all_below(row@, 2),
                decreases take - shift,
            {
                let b = (word >> shift) & 1;
                assert(b <= 1) by (bit_vector)
                    requires
                        b == (word >> shift) & 1,
                ;
                row.push(b as u64);
                shift = shift + 1;
            }
            k = k + take as usize;
        }
        let ghost before = r@;
        r.push(row);
        proof {
            assert forall|p: int| 0 <= p < r@.len() implies all_below(
                #[trigger] rows_view(r@)[p],
                2,
            ) by {
                if p < i {
                    assert(r@[p] == before[p]);
                    assert(all_below(rows_view(before)[p], 2));
                }
            }
        }
        i = i + 1;
    }
    let c = encrypt_rows(pk, bit, r.as_slice(), table);
    proof {
        assert(valid_mask(rows_view(r@), pk.params));
    }
    c
}

/// Decrypts: round(|d| / scale) mod 2, where d is row l - 1 of the ciphertext
/// times PowersOf2(s), reduced to `(-q/2, q/2]`, and scale = PowersOf2(s)[l - 1].
pub fn decrypt(sk: &GswSecretKey, ct: &Ciphertext) -> (r: u8)
    requires
        sk.wf(),
        ct_wf(rows_view(ct@), sk.params),
    ensures
        r as int == decrypt_spec(sk.s@, rows_view(ct@), sk.params),
        r <= 1,
{
    let params = sk.params();
    let q = params.q;
    let l = params.l;
    let n_expanded = params.n_expanded;
    proof {
        lemma_wf_q_bounds(*params);
        lemma_l_le_n_expanded(*params);
        lemma_powers_below(sk.s@, *params);
    }
    let v = powers_of_2(sk.s.as_slice(), params);
    let row_idx = l - 1;
    let row = &ct[row_idx];
    assert(all_below(rows_view(ct@)[row_idx as int], q as nat));
    let val = dot_mod(row.as_slice(), v.as_slice(), n_expanded, params);
    let scale = v[l - 1];
    if scale == 0 {
        return 0;
    }
    let d = mod_q_centered(val as i64, q);
    proof {
        lemma_pow2_unfold(l as nat);
        lemma_centered_unique(val as int, q as int, d as int);
    }
    let magnitude: u64 = if d < 0 {
        (-d) as u64
    } else {
        d as u64
    };
    let msg = (magnitude + scale / 2) / scale;
    (msg % 2) as u8
}

/// Homomorphic addition: Flatten(C1 + C2), entry-wise mod q.
pub fn homomorphic_add(params: &Params, ct1: &Ciphertext, ct2: &Ciphertext) -> (r: Ciphertext)
    requires
        params.wf(),
        ct_wf(rows_view(ct1@), *params),
        ct_wf(rows_view(ct2@), *params),
    ensures
        rows_view(r@) == flatten_rows(
            sum_entries(rows_view(ct1@), rows_view(ct2@), params.q as nat),
            params.l as nat,
            params.q as nat,
        ),
        ct_wf(rows_view(r@), *params),
{
    let q = params.q;
    let n_expanded = params.n_expanded;
    let ghost c1 = rows_view(ct1@);
    let ghost c2 = rows_view(ct2@);
    let ghost sum = sum_entries(c1, c2, q as nat);
    proof {
        lemma_wf_q_bounds(*params);
    }
    let mut result: Vec<Vec<u64>> = Vec::with_capacity(n_expanded);
    let mut i: usize = 0;
    while i < n_expanded
        invariant
            params.wf(),
            q == params.q,
            n_expanded == params.n_expanded,
            2 <= q <= 0x8000_0000,
            c1 == rows_view(ct1@),
            c2 == rows_view(ct2@),
            ct_wf(c1, *params),
            ct_wf(c2, *params),
            sum == sum_entries(c1, c2, q as nat),
            0 <= i <= n_expanded,
            result@.len() == i,
            forall|t: int|
                0 <= t < i ==> (#[trigger] result@[t])@ == flatten_spec(
                    sum[t],
                    params.l as nat,
                    q as nat,
                ),
            forall|t: int|
                0 <= t < i ==> (#[trigger] result@[t])@.len() == n_expanded && all_below(
                    result@[t]@,
                    q as nat,
                ),
        decreases n_expanded - i,
    {
        let a = &ct1[i];
        let b = &ct2[i];
        assert(all_below(c1[i as int], q as nat));
        assert(all_below(c2[i as int], q as nat));
        let mut row: Vec<u64> = Vec::with_capacity(n_expanded);
        let mut j: usize = 0;
        while j < n_expanded
            invariant
                params.wf(),
                q == params.q,
                2 <= q <= 0x8000_0000,
                0 <= i < n_expanded,
                c1.len() == n_expanded,
                a@ == c1[i as int],
                b@ == c2[i as int],
                a@.len() == n_expanded,
                b@.len() == n_expanded,
                all_below(a@, q as nat),
                all_below(b@, q as nat),
                sum == sum_entries(c1, c2, q as nat),
                0 <= j <= n_expanded,
                row@.len() == j,
                forall|t: int| 0 <= t < j ==> #[trigger] row@[t] == sum[i as int][t],
                all_below(row@, q as nat),
            decreases n_expanded - j,
        {
            let x = reduce(a[j] + b[j], params);
            row.push(x);
            j = j + 1;
        }
        proof {
            assert(row@ =~= sum[i as int]);
        }
        let flat = flatten(row.as_slice(), params);
        proof {
            lemma_flatten_len_bits(row@, *params);
        }
        result.push(flat);
        i = i + 1;
    }
    proof {
        assert(rows_view(result@) =~= flatten_rows(sum, params.l as nat, q as nat));
        lemma_ct_wf_from_rows(result@, *params);
    }
    result
}

/// Homomorphic multiplication: Flatten(C1 * C2), the matrix product mod q.
pub fn homomorphic_mult(params: &Params, ct1: &Ciphertext, ct2: &Ciphertext) -> (r: Ciphertext)
    requires
        params.wf(),
        ct_wf(rows_view(ct1@), *params),
        ct_wf(rows_view(ct2@), *params),
    ensures
        rows_view(r@) == flatten_rows(
            mat_mul(rows_view(ct1@), rows_view(ct2@), params.n_expanded as nat, params.q as nat),
            params.l as nat,
            params.q as nat,
        ),
        ct_wf(rows_view(r@), *params),
{
    let q = params.q;
    let n_expanded = params.n_expanded;
    let ghost c1 = rows_view(ct1@);
    let ghost c2 = rows_view(ct2@);
    let ghost prod = mat_mul(c1, c2, n_expanded as nat, q as nat);
    proof {
        lemma_wf_q_bounds(*params);
    }
    let mut result: Vec<Vec<u64>> = Vec::with_capacity(n_expanded);
    let mut i: usize = 0;
    while i < n_expanded
        invariant
            params.wf(),
            q == params.q,
            n_expanded == params.n_expanded,
            2 <= q <= 0x8000_0000,
            c1 == rows_view(ct1@),
            c2 == rows_view(ct2@),
            ct_wf(c1, *params),
            ct_wf(c2, *params),
            prod == mat_mul(c1, c2, n_expanded as nat, q as nat),
            0 <= i <= n_expanded,
            result@.len() == i,
            forall|t: int|
                0 <= t < i ==> (#[trigger] result@[t])@ == flatten_spec(
                    prod[t],
                    params.l as nat,
                    q as nat,
                ),
            forall|t: int|
                0 <= t < i ==> (#[trigger] result@[t])@.len() == n_expanded && all_below(
                    result@[t]@,
                    q as nat,
                ),
        decreases n_expanded - i,
    {
        let a = &ct1[i];
        assert(all_below(c1[i as int], q as nat));
        assert forall|k: int| 0 <= k < ct2@.len() implies (#[trigger] ct2@[k])@.len()
            == n_expanded by {
            assert(c2[k].len() == n_expanded);
        }
        let p = row_times_mod(a.as_slice(), ct2.as_slice(), n_expanded, params);
        let flat = flatten(p.as_slice(), params);
        proof {
            lemma_flatten_len_bits(p@, *params);
        }
        result.push(flat);
        i = i + 1;
    }
    proof {
        assert(rows_view(result@) =~= flatten_rows(prod, params.l as nat, q as nat));
        lemma_ct_wf_from_rows(result@, *params);
    }
    result
}

/// Homomorphic NAND: Flatten(I - C1 * C2), mod q.
pub fn homomorphic_nand(params: &Params, ct1: &Ciphertext, ct2: &Ciphertext) -> (r: Ciphertext)
    requires
        params.wf(),
        ct_wf(rows_view(ct1@), *params),
        ct_wf(rows_view(ct2@), *params),
    ensures
        rows_view(r@) == flatten_rows(
            identity_minus(
                mat_mul(
                    rows_view(ct1@),
                    rows_view(ct2@),
                    params.n_expanded as nat,
                    params.q as nat,
                ),
                params.q as nat,
            ),
            params.l as nat,
            params.q as nat,
        ),
        ct_wf(rows_view(r@), *params),
{
    let q = params.q;
    let n_expanded = params.n_expanded;
    let ghost c1 = rows_view(ct1@);
    let ghost c2 = rows_view(ct2@);
    let ghost prod = mat_mul(c1, c2, n_expanded as nat, q as nat);
    let ghost diff = identity_minus(prod, q as nat);
    proof {
        lemma_wf_q_bounds(*params);
    }
    let mut result: Vec<Vec<u64>> = Vec::with_capacity(n_expanded);
    let mut i: usize = 0;
    while i < n_expanded
        invariant
            params.wf(),
            q == params.q,
            n_expanded == params.n_expanded,
            2 <= q <= 0x8000_0000,
            c1 == rows_view(ct1@),
            c2 == rows_view(ct2@),
            ct_wf(c1, *params),
            ct_wf(c2, *params),
            prod == mat_mul(c1, c2, n_expanded as nat, q as nat),
            diff == identity_minus(prod, q as nat),
            0 <= i <= n_expanded,
            result@.len() == i,
            forall|t: int|
                0 <= t < i ==> (#[trigger] result@[t])@ == flatten_spec(
                    diff[t],
                    params.l as nat,
                    q as nat,
                ),
            forall|t: int|
                0 <= t < i ==> (#[trigger] result@[t])@.len() == n_expanded && all_below(
                    result@[t]@,
                    q as nat,
                ),
        decreases n_expanded - i,
    {
        let a = &ct1[i];
        assert(all_below(c1[i as int], q as nat));
        assert forall|k: int| 0 <= k < ct2@.len() implies (#[trigger] ct2@[k])@.len()
            == n_expanded by {
            assert(c2[k].len() == n_expanded);
        }
        let p = row_times_mod(a.as_slice(), ct2.as_slice(), n_expanded, params);
        let mut row: Vec<u64> = Vec::with_capacity(n_expanded);
        let mut j: usize = 0;
        while j < n_expanded
            invariant
                params.wf(),
                q == params.q,
                2 <= q <= 0x8000_0000,
                0 <= i < n_expanded,
                prod.len() == n_expanded,
                p@ == prod[i as int],
                p@.len() == n_expanded,
                all_below(p@, q as nat),
                diff == identity_minus(prod, q as nat),
                0 <= j <= n_expanded,
                row@.len() == j,
                forall|t: int| 0 <= t < j ==> #[trigger] row@[t] == diff[i as int][t],
                all_below(row@, q as nat),
            decreases n_expanded - j,
        {
            let pj = p[j];
            proof {
                lemma_mod_multiples_vanish(1, (if i == j { 1int } else { 0int }) - pj, q as int);
            }
            let val = if i == j {
                reduce(q + 1 - pj, params)
            } else {
                reduce(q - pj, params)
            };
            row.push(val);
            j = j + 1;
        }
        proof {
            assert(row@ =~= diff[i as int]);
        }
        let flat = flatten(row.as_slice(), params);
        proof {
            lemma_flatten_len_bits(row@, *params);
        }
        result.push(flat);
        i = i + 1;
    }
    proof {
        assert(rows_view(result@) =~= flatten_rows(diff, params.l as nat, q as nat));
        lemma_ct_wf_from_rows(result@, *params);
    }
    result
}

} // verus!
