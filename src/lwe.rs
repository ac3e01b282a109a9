//! LWE keys: a secret vector s = (1, -t) and a public matrix A = [b | B] with
//! b = B * t + e, so that A * s = e is small.

use vstd::prelude::*;
use vstd::arithmetic::div_mod::*;
use rand_chacha::ChaCha20Rng;
use crate::gadget::{all_below, rows_below, rows_view};
use crate::linalg::{dot_mod, dot_prefix};
use crate::modular::mod_q;
use crate::params::Params;
use crate::sampling::{rand_symmetric, rand_zq};

verus! {

/// Secret key s = (1, -t_1, ..., -t_n) over Z_q.
#[derive(Clone, Debug)]
pub struct SecretKey {
    /// The secret vector, of length n + 1.
    pub s: Vec<u64>,
    /// The parameters the key was made for.
    pub params: Params,
}

impl SecretKey {
    /// Length n + 1, first entry 1, every entry in Z_q.
    pub open spec fn wf(&self) -> bool {
        &&& self.params.wf()
        &&& self.s@.len() == self.params.n + 1
        &&& self.s@[0] == 1
        &&& all_below(self.s@, self.params.q as nat)
    }

    /// The parameters the key was made for.
    pub fn params(&self) -> (r: &Params)
        ensures
            *r == self.params,
    {
        &self.params
    }
}

/// Public key: the m x (n + 1) matrix A whose rows are (b_i, B_i1, ..., B_in).
#[derive(Clone, Debug)]
pub struct PublicKey {
    /// The public matrix, row by row.
    pub a: Vec<Vec<u64>>,
    /// The parameters the key was made for.
    pub params: Params,
}

impl PublicKey {
    /// m rows of length n + 1, every entry in Z_q.
    pub open spec fn wf(&self) -> bool {
        &&& self.params.wf()
        &&& self.a@.len() == self.params.m
        &&& forall|i: int|
            0 <= i < self.a@.len() ==> (#[trigger] self.a@[i])@.len() == self.params.n + 1
        &&& rows_below(rows_view(self.a@), self.params.q as nat)
    }

    /// The parameters the key was made for.
    pub fn params(&self) -> (r: &Params)
        ensures
            *r == self.params,
    {
        &self.params
    }
}

/// s = (1, -t_1 mod q, ..., -t_n mod q).
pub open spec fn secret_vector(t: Seq<u64>, q: nat) -> Seq<u64> {
    Seq::new(
        t.len() + 1,
        |j: int|
            if j == 0 {
                1u64
            } else {
                ((-(t[j - 1] as int)) % (q as int)) as u64
            },
    )
}

/// The row (b, B_1, ..., B_n) with b = (B . t + e) mod q.
pub open spec fn public_row(brow: Seq<u64>, t: Seq<u64>, e: int, q: nat) -> Seq<u64> {
    Seq::new(
        brow.len() + 1,
        |j: int|
            if j == 0 {
                ((dot_prefix(brow, t, t.len()) + e) % (q as int)) as u64
            } else {
                brow[j - 1]
            },
    )
}

/// A = [b | B] with b = B * t + e mod q.
pub open spec fn public_matrix(bmat: Seq<Seq<u64>>, t: Seq<u64>, e: Seq<i64>, q: nat) -> Seq<
    Seq<u64>,
> {
    Seq::new(bmat.len(), |i: int| public_row(bmat[i], t, e[i] as int, q))
}

/// Samples that KeyGen may draw for `params`: t in Z_q^n, B in Z_q^{m x n},
/// and e in [-B, B]^m (all zero when the bound is not positive).
pub open spec fn valid_samples(params: Params, t: Seq<u64>, bmat: Seq<Seq<u64>>, e: Seq<i64>) -> bool {
    &&& t.len() == params.n
    &&& all_below(t, params.q as nat)
    &&& bmat.len() == params.m
    &&& forall|i: int| 0 <= i < bmat.len() ==> (#[trigger] bmat[i]).len() == params.n
    &&& rows_below(bmat, params.q as nat)
    &&& e.len() == params.m
    &&& forall|i: int|
        0 <= i < e.len() ==> if params.error_bound > 0 {
            -params.error_bound <= #[trigger] e[i] <= params.error_bound
        } else {
            e[i] == 0
        }
}

/// The key pair is the one that KeyGen builds from the samples.
pub open spec fn keys_from_samples(
    params: Params,
    t: Seq<u64>,
    bmat: Seq<Seq<u64>>,
    e: Seq<i64>,
    sk: SecretKey,
    pk: PublicKey,
) -> bool {
    &&& sk.params == params
    &&& pk.params == params
    &&& sk.s@ == secret_vector(t, params.q as nat)
    &&& rows_view(pk.a@) == public_matrix(bmat, t, e, params.q as nat)
    &&& sk.wf()
    &&& pk.wf()
}

/// Builds the key pair from the samples t, B and e.
pub fn keygen_with(params: &Params, t: &[u64], b_mat: &[Vec<u64>], e: &[i64]) -> (r: (
    SecretKey,
    PublicKey,
))
    requires
        params.wf(),
        t@.len() == params.n,
        all_below(t@, params.q as nat),
        b_mat@.len() == params.m,
        forall|i: int| 0 <= i < b_mat@.len() ==> (#[trigger] b_mat@[i])@.len() == params.n,
        rows_below(rows_view(b_mat@), params.q as nat),
        e@.len() == params.m,
    ensures
        keys_from_samples(*params, t@, rows_view(b_mat@), e@, r.0, r.1),
        forall|i: int|
            0 <= i < params.m ==> #[trigger] dot_prefix(r.1.a@[i]@, r.0.s@, (params.n + 1) as nat)
                % (params.q as int) == (e@[i] as int) % (params.q as int),
{
    let n = params.n;
    let m = params.m;
    let q = params.q;
    proof {
        crate::params::lemma_wf_q_bounds(*params);
    }
    let ghost q_int = q as int;
    let mut s: Vec<u64> = Vec::new();
    s.push(1);
    let mut j: usize = 0;
    while j < n
        invariant
            n == params.n,
            q == params.q,
            0 < q <= 0x8000_0000,
            t@.len() == n,
            all_below(t@, q as nat),
            0 <= j <= n,
            s@.len() == j + 1,
            forall|k: int| 0 <= k < j + 1 ==> #[trigger] s@[k] == secret_vector(t@, q as nat)[k],
            forall|k: int| 0 <= k < j + 1 ==> #[trigger] s@[k] < q,
        decreases n - j,
    {
        let x = mod_q(-(t[j] as i64), q);
        s.push(x);
        j = j + 1;
    }
    let ghost bm = rows_view(b_mat@);
    let mut a: Vec<Vec<u64>> = Vec::new();
    let mut i: usize = 0;
    while i < m
        invariant
            params.wf(),
            n == params.n,
            m == params.m,
            q == params.q,
            0 < q <= 0x8000_0000,
            t@.len() == n,
            all_below(t@, q as nat),
            bm == rows_view(b_mat@),
            b_mat@.len() == m,
            forall|k: int| 0 <= k < b_mat@.len() ==> (#[trigger] b_mat@[k])@.len() == n,
            rows_below(bm, q as nat),
            e@.len() == m,
            0 <= i <= m,
            a@.len() == i,
            forall|k: int|
                0 <= k < i ==> (#[trigger] a@[k])@ == public_row(bm[k], t@, e@[k] as int, q as nat),
            forall|k: int| 0 <= k < i ==> all_below((#[trigger] a@[k])@, q as nat),
        decreases m - i,
    {
        let brow = &b_mat[i];
        assert(all_below(bm[i as int], q as nat));
        let d = dot_mod(brow.as_slice(), t, n, params);
        let ei = mod_q(e[i], q);
        let b = mod_q((d + ei) as i64, q);
        proof {
            let dp = dot_prefix(brow@, t@, n as nat);
            lemma_add_mod_noop(dp, e@[i as int] as int, q as int);
        }
        let ghost want = public_row(bm[i as int], t@, e@[i as int] as int, q as nat);
        let mut row: Vec<u64> = Vec::new();
        row.push(b);
        let mut k: usize = 0;
        while k < n
            invariant
                n == params.n,
                0 <= i < m,
                bm.len() == m,
                e@.len() == m,
                brow@.len() == n,
                brow@ == bm[i as int],
                all_below(brow@, q as nat),
                want == public_row(bm[i as int], t@, e@[i as int] as int, q as nat),
                t@.len() == n,
                b < q,
                b == want[0],
                0 <= k <= n,
                row@.len() == k + 1,
                forall|p: int| 0 <= p < k + 1 ==> #[trigger] row@[p] == want[p],
                forall|p: int| 0 <= p < k + 1 ==> #[trigger] row@[p] < q,
            decreases n - k,
        {
            row.push(brow[k]);
            k = k + 1;
        }
        proof {
            assert(row@ =~= want);
        }
        a.push(row);
        i = i + 1;
    }
    proof {
        assert(s@ =~= secret_vector(t@, q as nat));
        assert(rows_view(a@) =~= public_matrix(bm, t@, e@, q as nat));
        assert forall|k: int| 0 <= k < rows_view(a@).len() implies all_below(
            #[trigger] rows_view(a@)[k],
            q as nat,
        ) by {
            assert(all_below(a@[k]@, q as nat));
        }
        assert forall|k: int| 0 <= k < m implies #[trigger] dot_prefix(a@[k]@, s@, (n + 1) as nat)
            % (q as int) == (e@[k] as int) % (q as int) by {
            crate::correctness::lemma_lwe_row(bm[k], t@, e@[k] as int, q as nat);
        }
    }
    (SecretKey { s, params: *params }, PublicKey { a, params: *params })
}

/// An error in `[-bound, bound]`, or 0 when the bound is not positive.
fn sample_error(rng: &mut ChaCha20Rng, bound: i64) -> (r: i64)
    ensures
        bound <= 0 ==> r == 0,
        bound > 0 ==> -bound <= r <= bound,
{
    if bound <= 0 {
        return 0;
    }
    rand_symmetric(rng, bound)
}

/// KeyGen: draws t, then B row by row, then e, and builds the key pair from them.
pub fn keygen(rng: &mut ChaCha20Rng, params: &Params) -> (r: (SecretKey, PublicKey))
    requires
        params.wf(),
    ensures
        exists|t: Seq<u64>, bmat: Seq<Seq<u64>>, e: Seq<i64>|
            valid_samples(*params, t, bmat, e) && #[trigger] keys_from_samples(
                *params,
                t,
                bmat,
                e,
                r.0,
                r.1,
            ) && forall|i: int|
                0 <= i < params.m ==> #[trigger] dot_prefix(r.1.a@[i]@, r.0.s@, (params.n + 1) as nat)
                    % (params.q as int) == (e[i] as int) % (params.q as int),
{
    let n = params.n;
    let m = params.m;
    let q = params.q;
    let bound = params.error_bound;
    proof {
        crate::params::lemma_wf_q_bounds(*params);
    }
    let mut t: Vec<u64> = Vec::new();
    let mut j: usize = 0;
    while j < n
        invariant
            0 < q,
            0 <= j <= n,
            t@.len() == j,
            all_below(t@, q as nat),
        decreases n - j,
    {
        t.push(rand_zq(rng, q));
        j = j + 1;
    }
    let mut b_mat: Vec<Vec<u64>> = Vec::new();
    let mut i: usize = 0;
    while i < m
        invariant
            0 < q,
            0 <= i <= m,
            b_mat@.len() == i,
            forall|k: int| 0 <= k < b_mat@.len() ==> (#[trigger] b_mat@[k])@.len() == n,
            rows_below(rows_view(b_mat@), q as nat),
        decreases m - i,
    {
        let mut row: Vec<u64> = Vec::new();
        let mut k: usize = 0;
        while k < n
            invariant
                0 < q,
                0 <= k <= n,
                row@.len() == k,
                all_below(row@, q as nat),
            decreases n - k,
        {
            row.push(rand_zq(rng, q));
            k = k + 1;
        }
        let ghost before = b_mat@;
        b_mat.push(row);
        proof {
            assert forall|p: int| 0 <= p < b_mat@.len() implies all_below(
                #[trigger] rows_view(b_mat@)[p],
                q as nat,
            ) by {
                if p < i {
                    assert(b_mat@[p] == before[p]);
                    assert(all_below(rows_view(before)[p], q as nat));
                }
            }
        }
        i = i + 1;
    }
    let mut e: Vec<i64> = Vec::new();
    let mut k: usize = 0;
    while k < m
        invariant
            0 <= k <= m,
            bound == params.error_bound,
            e@.len() == k,
            forall|p: int|
                0 <= p < e@.len() ==> if bound > 0 {
                    -bound <= #[trigger] e@[p] <= bound
                } else {
                    e@[p] == 0
                },
        decreases m - k,
    {
        e.push(sample_error(rng, bound));
        k = k + 1;
    }
    let r = keygen_with(params, t.as_slice(), b_mat.as_slice(), e.as_slice());
    proof {
        assert(valid_samples(*params, t@, rows_view(b_mat@), e@));
        assert(keys_from_samples(*params, t@, rows_view(b_mat@), e@, r.0, r.1));
    }
    r
}

} // verus!
