//! Dot products and row-by-matrix products over Z_q.

use vstd::prelude::*;
use vstd::arithmetic::div_mod::*;
use vstd::math::min;
use crate::gadget::{all_below, rows_below, rows_view};
use crate::modular::reduce;
use crate::params::{lemma_wf_q_bounds, Params};

verus! {

/// The sum of `a[k] * b[k]` over `k < len`.
pub open spec fn dot_prefix(a: Seq<u64>, b: Seq<u64>, len: nat) -> int
    decreases len,
{
    if len == 0 {
        0
    } else {
        dot_prefix(a, b, (len - 1) as nat) + a[len - 1] * b[len - 1]
    }
}

/// The sum of `x[k] * y[k][j]` over `k < len`: entry `j` of the row vector
/// `x` times the matrix `y`, before reduction.
pub open spec fn col_dot(x: Seq<u64>, y: Seq<Seq<u64>>, j: int, len: nat) -> int
    decreases len,
{
    if len == 0 {
        0
    } else {
        col_dot(x, y, j, (len - 1) as nat) + x[len - 1] * y[len - 1][j]
    }
}

/// The row vector `x` times the matrix `y` (with `cols` columns), mod q.
pub open spec fn row_times(x: Seq<u64>, y: Seq<Seq<u64>>, cols: nat, q: nat) -> Seq<u64> {
    Seq::new(cols, |j: int| (col_dot(x, y, j, y.len()) % (q as int)) as u64)
}

/// The matrix product `a * b` mod q, row by row.
pub open spec fn mat_mul(a: Seq<Seq<u64>>, b: Seq<Seq<u64>>, cols: nat, q: nat) -> Seq<Seq<u64>> {
    a.map_values(|row: Seq<u64>| row_times(row, b, cols, q))
}

/// Reducing an accumulator before adding to it keeps the residue.
pub proof fn lemma_mod_step(acc: int, y: int, q: int)
    requires
        q > 0,
    ensures
        ((acc % q) + y) % q == (acc + y) % q,
{
    lemma_add_mod_noop(acc, y, q);
    lemma_add_mod_noop(acc % q, y, q);
    lemma_mod_mod(acc, q, 1);
    lemma_mul_basics_mod(q);
}

proof fn lemma_mul_basics_mod(q: int)
    requires
        q > 0,
    ensures
        q * 1 == q,
{
}

/// The dot product of the first `len` entries of `x` and `y`, mod q.
pub fn dot_mod(x: &[u64], y: &[u64], len: usize, params: &Params) -> (r: u64)
    requires
        params.wf(),
        len <= x@.len(),
        len <= y@.len(),
        all_below(x@, params.q as nat),
        all_below(y@, params.q as nat),
    ensures
        r as int == dot_prefix(x@, y@, len as nat) % (params.q as int),
        r < params.q,
{
    let q = params.q;
    proof {
        lemma_wf_q_bounds(*params);
    }
    let mut acc: u64 = 0;
    let mut k: usize = 0;
    proof {
        lemma_small_mod(0, q as nat);
    }
    while k < len
        invariant
            params.wf(),
            q == params.q,
            0 < q <= 0x8000_0000,
            len <= x@.len(),
            len <= y@.len(),
            all_below(x@, q as nat),
            all_below(y@, q as nat),
            0 <= k <= len,
            acc as int == dot_prefix(x@, y@, k as nat) % (q as int),
            acc < q,
        decreases len - k,
    {
        let a = x[k];
        let b = y[k];
        assert(a * b <= 0x8000_0000 * 0x8000_0000) by (nonlinear_arith)
            requires
                a < q,
                b < q,
                q <= 0x8000_0000,
        ;
        proof {
            lemma_mod_step(dot_prefix(x@, y@, k as nat), a * b, q as int);
        }
        acc = reduce(acc + a * b, params);
        k = k + 1;
    }
    acc
}

/// The row vector `x` times the matrix `y` with `cols` columns, mod q.
/// Rows of `y` whose coefficient in `x` is zero are skipped.
pub fn row_times_mod(x: &[u64], y: &[Vec<u64>], cols: usize, params: &Params) -> (r: Vec<u64>)
    requires
        params.wf(),
        x@.len() == y@.len(),
        forall|k: int| 0 <= k < y@.len() ==> (#[trigger] y@[k])@.len() == cols,
        all_below(x@, params.q as nat),
        rows_below(rows_view(y@), params.q as nat),
    ensures
        r@ == row_times(x@, rows_view(y@), cols as nat, params.q as nat),
        all_below(r@, params.q as nat),
{
    let q = params.q;
    proof {
        lemma_wf_q_bounds(*params);
    }
    let ghost ym = rows_view(y@);
    let mut acc: Vec<u64> = Vec::with_capacity(cols);
    let mut j: usize = 0;
    while j < cols
        invariant
            0 <= j <= cols,
            acc@.len() == j,
            forall|t: int| 0 <= t < j ==> #[trigger] acc@[t] == 0,
        decreases cols - j,
    {
        acc.push(0);
        j = j + 1;
    }
    let mut k: usize = 0;
    proof {
        lemma_small_mod(0, q as nat);
    }
    while k < x.len()
        invariant
            params.wf(),
            q == params.q,
            0 < q <= 0x8000_0000,
            x@.len() == y@.len(),
            ym == rows_view(y@),
            forall|k: int| 0 <= k < y@.len() ==> (#[trigger] y@[k])@.len() == cols,
            all_below(x@, q as nat),
            rows_below(ym, q as nat),
            0 <= k <= x@.len(),
            acc@.len() == cols,
            forall|t: int|
                0 <= t < cols ==> #[trigger] acc@[t] as int == col_dot(x@, ym, t, k as nat) % (
                q as int),
        decreases x@.len() - k,
    {
        let a = x[k];
        let ghost kk = (k + 1) as nat;
        if a != 0 {
            let yk = &y[k];
            assert(all_below(ym[k as int], q as nat));
            let mut j: usize = 0;
            while j < cols
                invariant
                    params.wf(),
                    q == params.q,
                    0 < q <= 0x8000_0000,
                    ym == rows_view(y@),
                    0 <= k < x@.len(),
                    x@.len() == y@.len(),
                    a == x@[k as int],
                    a < q,
                    yk@ == ym[k as int],
                    yk@.len() == cols,
                    all_below(yk@, q as nat),
                    kk == k + 1,
                    0 <= j <= cols,
                    acc@.len() == cols,
                    forall|t: int|
                        0 <= t < j ==> #[trigger] acc@[t] as int == col_dot(x@, ym, t, kk) % (
                        q as int),
                    forall|t: int|
                        j <= t < cols ==> #[trigger] acc@[t] as int == col_dot(x@, ym, t, k as nat)
                            % (q as int),
                decreases cols - j,
            {
                let b = yk[j];
                assert(a * b <= 0x8000_0000 * 0x8000_0000) by (nonlinear_arith)
                    requires
                        a < q,
                        b < q,
                        q <= 0x8000_0000,
                ;
                proof {
                    lemma_mod_step(col_dot(x@, ym, j as int, k as nat), a * b, q as int);
                    assert(col_dot(x@, ym, j as int, kk) == col_dot(x@, ym, j as int, k as nat)
                        + a * b);
                }
                let v = reduce(acc[j] + a * b, params);
                acc.set(j, v);
                j = j + 1;
            }
        } else {
            assert forall|t: int| 0 <= t < cols implies #[trigger] acc@[t] as int == col_dot(
                x@,
                ym,
                t,
                kk,
            ) % (q as int) by {
                assert(col_dot(x@, ym, t, kk) == col_dot(x@, ym, t, k as nat) + a * ym[k as int][t]);
            }
        }
        k = k + 1;
    }
    proof {
        assert(acc@ =~= row_times(x@, ym, cols as nat, q as nat));
    }
    acc
}

/// The sum over `t < len` of bit `t` of `v` times `a[4g + t][j]`, for the rows
/// of group `g` that exist.
pub open spec fn group_sum(a: Seq<Seq<u64>>, g: int, v: u64, j: int, len: nat) -> int
    decreases len,
{
    if len == 0 {
        0
    } else {
        group_sum(a, g, v, j, (len - 1) as nat) + (if 4 * g + len - 1 < a.len() {
            ((v >> ((len - 1) as u64)) & 1) * a[4 * g + len - 1][j]
        } else {
            0
        })
    }
}

/// The number of groups of four rows that cover `m` rows.
pub open spec fn group_count(m: int) -> int {
    m / 4 + if m % 4 != 0 {
        1int
    } else {
        0int
    }
}

/// For every group `g` of four rows of `a` and every `v < 16`, entry
/// `16 * g + v` is the sum of the rows of the group selected by the bits of
/// `v`, mod q.
pub fn group_table(a: &[Vec<u64>], cols: usize, params: &Params) -> (t: Vec<Vec<u64>>)
    requires
        params.wf(),
        a@.len() <= 0x1000_0000,
        forall|k: int| 0 <= k < a@.len() ==> (#[trigger] a@[k])@.len() == cols,
        rows_below(rows_view(a@), params.q as nat),
    ensures
        t@.len() == 16 * group_count(a@.len() as int),
        forall|i: int| 0 <= i < t@.len() ==> (#[trigger] t@[i])@.len() == cols,
        forall|g: int, v: int|
            0 <= g < group_count(a@.len() as int) && 0 <= v < 16 ==> (#[trigger] t@[16 * g + v])@.len()
                == cols,
        forall|g: int, v: int, j: int|
            0 <= g < group_count(a@.len() as int) && 0 <= v < 16 && 0 <= j < cols
                ==> #[trigger] t@[16 * g + v]@[j] as int == group_sum(
                rows_view(a@),
                g,
                v as u64,
                j,
                4,
            ) % (params.q as int),
        forall|i: int| 0 <= i < t@.len() ==> all_below((#[trigger] t@[i])@, params.q as nat),
{
    let ghost am = rows_view(a@);
    let m = a.len();
    let groups: usize = m / 4 + if m % 4 != 0 {
        1
    } else {
        0
    };
    proof {
        lemma_wf_q_bounds(*params);
        lemma_small_mod(0, params.q as nat);
    }
    let mut table: Vec<Vec<u64>> = Vec::with_capacity(16 * groups);
    let mut g: usize = 0;
    while g < groups
        invariant
            params.wf(),
            0 < params.q <= 0x8000_0000,
            am == rows_view(a@),
            m == a@.len(),
            m <= 0x1000_0000,
            groups == group_count(m as int),
            forall|k: int| 0 <= k < a@.len() ==> (#[trigger] a@[k])@.len() == cols,
            rows_below(am, params.q as nat),
            0 <= g <= groups,
            table@.len() == 16 * g,
            forall|i: int| 0 <= i < table@.len() ==> (#[trigger] table@[i])@.len() == cols,
            forall|i: int| 0 <= i < table@.len() ==> all_below((#[trigger] table@[i])@, params.q as nat),
            forall|gg: int, v: int, j: int|
                0 <= gg < g && 0 <= v < 16 && 0 <= j < cols ==> #[trigger] table@[16 * gg
                    + v]@[j] as int == group_sum(am, gg, v as u64, j, 4) % (params.q as int),
        decreases groups - g,
    {
        let mut v: u64 = 0;
        while v < 16
            invariant
                params.wf(),
                0 < params.q <= 0x8000_0000,
                am == rows_view(a@),
                m == a@.len(),
                m <= 0x1000_0000,
                groups == group_count(m as int),
                forall|k: int| 0 <= k < a@.len() ==> (#[trigger] a@[k])@.len() == cols,
                rows_below(am, params.q as nat),
                0 <= g < groups,
                v <= 16,
                table@.len() == 16 * g + v,
                forall|i: int| 0 <= i < table@.len() ==> (#[trigger] table@[i])@.len() == cols,
                forall|i: int|
                    0 <= i < table@.len() ==> all_below((#[trigger] table@[i])@, params.q as nat),
                forall|gg: int, vv: int, j: int|
                    0 <= gg < g && 0 <= vv < 16 && 0 <= j < cols ==> #[trigger] table@[16 * gg
                        + vv]@[j] as int == group_sum(am, gg, vv as u64, j, 4) % (params.q as int),
                forall|vv: int, j: int|
                    0 <= vv < v && 0 <= j < cols ==> #[trigger] table@[16 * g + vv]@[j] as int
                        == group_sum(am, g as int, vv as u64, j, 4) % (params.q as int),
            decreases 16 - v,
        {
            let mut entry: Vec<u64> = Vec::with_capacity(cols);
            let mut j: usize = 0;
            while j < cols
                invariant
                    params.wf(),
                    0 < params.q <= 0x8000_0000,
                    am == rows_view(a@),
                    m == a@.len(),
                    forall|k: int| 0 <= k < a@.len() ==> (#[trigger] a@[k])@.len() == cols,
                    rows_below(am, params.q as nat),
                    0 <= g < groups,
                    groups == group_count(m as int),
                    m <= 0x1000_0000,
                    v < 16,
                    0 <= j <= cols,
                    entry@.len() == j,
                    all_below(entry@, params.q as nat),
                    forall|jj: int|
                        0 <= jj < j ==> #[trigger] entry@[jj] as int == group_sum(
                            am,
                            g as int,
                            v,
                            jj,
                            4,
                        ) % (params.q as int),
                decreases cols - j,
            {
                let mut sum: u64 = 0;
                let mut t: u64 = 0;
                proof {
                    lemma_small_mod(0, params.q as nat);
                }
                while t < 4
                    invariant
                        params.wf(),
                        0 < params.q <= 0x8000_0000,
                        am == rows_view(a@),
                        m == a@.len(),
                        forall|k: int| 0 <= k < a@.len() ==> (#[trigger] a@[k])@.len() == cols,
                        rows_below(am, params.q as nat),
                        0 <= j < cols,
                        g < groups,
                        groups == group_count(m as int),
                        m <= 0x1000_0000,
                        t <= 4,
                        sum < params.q,
                        sum as int == group_sum(am, g as int, v, j as int, t as nat) % (
                        params.q as int),
                    decreases 4 - t,
                {
                    let k = 4 * g + t as usize;
                    let ghost prev = group_sum(am, g as int, v, j as int, t as nat);
                    let bit = (v >> t) & 1;
                    assert(bit <= 1) by (bit_vector)
                        requires
                            bit == (v >> t) & 1,
                    ;
                    proof {
                        let nt = (t + 1) as nat;
                        assert(((nt - 1) as u64) == t);
                        assert(group_sum(am, g as int, v, j as int, nt) == prev + (if 4 * g + t
                            < am.len() {
                            ((v >> t) & 1) * am[4 * g + t][j as int]
                        } else {
                            0
                        }));
                        if k < m && bit == 0 {
                            assert(((v >> t) & 1) * am[4 * g + t][j as int] == 0);
                        }
                    }
                    if k < m && bit == 1 {
                        assert(all_below(am[k as int], params.q as nat));
                        let x = a[k][j];
                        proof {
                            lemma_mod_step(prev, x as int, params.q as int);
                        }
                        sum = reduce(sum + x, params);
                    }
                    t = t + 1;
                }
                entry.push(sum);
                j = j + 1;
            }
            table.push(entry);
            v = v + 1;
        }
        g = g + 1;
    }
    table
}

/// The four bits of `x` from position `4g` (0 past the end), as a number below 16.
pub open spec fn nibble_bits_match(x: Seq<u64>, g: int, nib: u64) -> bool {
    &&& nib < 16
    &&& forall|t: int|
        0 <= t < 4 ==> #[trigger] ((nib >> (t as u64)) & 1) == if 4 * g + t < x.len() {
            x[4 * g + t]
        } else {
            0
        }
}

/// Adding a group's selected rows extends entry `j` of `x * a` by that group.
proof fn lemma_group_step(x: Seq<u64>, a: Seq<Seq<u64>>, j: int, g: int, nib: u64, t: nat)
    requires
        0 <= g,
        t <= 4,
        x.len() == a.len(),
        nibble_bits_match(x, g, nib),
    ensures
        col_dot(x, a, j, min(4 * g + t, a.len() as int) as nat) == col_dot(
            x,
            a,
            j,
            min(4 * g, a.len() as int) as nat,
        ) + group_sum(a, g, nib, j, t),
    decreases t,
{
    if t > 0 {
        lemma_group_step(x, a, j, g, nib, (t - 1) as nat);
        let tt = t - 1;
        assert(((nib >> (tt as u64)) & 1) == if 4 * g + tt < x.len() {
            x[4 * g + tt]
        } else {
            0
        });
    }
}

/// The bit vector `x` times `a` with `cols` columns, mod q, by table lookups:
/// each group of four bits of `x` selects one entry of `table`.
pub(crate) fn bits_times_table(
    x: &[u64],
    table: &[Vec<u64>],
    cols: usize,
    params: &Params,
    a: Ghost<Seq<Seq<u64>>>,
) -> (r: Vec<u64>)
    requires
        params.wf(),
        x@.len() == a@.len(),
        x@.len() <= 0x1000_0000,
        all_below(x@, 2),
        table@.len() == 16 * group_count(x@.len() as int),
        forall|i: int| 0 <= i < table@.len() ==> (#[trigger] table@[i])@.len() == cols,
        forall|i: int| 0 <= i < table@.len() ==> all_below((#[trigger] table@[i])@, params.q as nat),
        forall|g: int, v: int, j: int|
            0 <= g < group_count(x@.len() as int) && 0 <= v < 16 && 0 <= j < cols
                ==> #[trigger] table@[16 * g + v]@[j] as int == group_sum(a@, g, v as u64, j, 4) % (
            params.q as int),
    ensures
        r@ == row_times(x@, a@, cols as nat, params.q as nat),
{
    let m = x.len();
    let groups: usize = m / 4 + if m % 4 != 0 {
        1
    } else {
        0
    };
    proof {
        lemma_wf_q_bounds(*params);
        lemma_small_mod(0, params.q as nat);
    }
    let mut acc: Vec<u64> = Vec::with_capacity(cols);
    let mut j: usize = 0;
    while j < cols
        invariant
            0 <= j <= cols,
            acc@.len() == j,
            forall|t: int| 0 <= t < j ==> #[trigger] acc@[t] == 0,
        decreases cols - j,
    {
        acc.push(0);
        j = j + 1;
    }
    let mut g: usize = 0;
    while g < groups
        invariant
            params.wf(),
            0 < params.q <= 0x8000_0000,
            m == x@.len(),
            x@.len() == a@.len(),
            m <= 0x1000_0000,
            groups == group_count(m as int),
            all_below(x@, 2),
            table@.len() == 16 * groups,
            forall|i: int| 0 <= i < table@.len() ==> (#[trigger] table@[i])@.len() == cols,
            forall|i: int| 0 <= i < table@.len() ==> all_below((#[trigger] table@[i])@, params.q as nat),
            forall|gg: int, v: int, j: int|
                0 <= gg < groups && 0 <= v < 16 && 0 <= j < cols ==> #[trigger] table@[16 * gg
                    + v]@[j] as int == group_sum(a@, gg, v as u64, j, 4) % (params.q as int),
            0 <= g <= groups,
            acc@.len() == cols,
            forall|t: int|
                0 <= t < cols ==> #[trigger] acc@[t] as int == col_dot(
                    x@,
                    a@,
                    t,
                    min(4 * g, m as int) as nat,
                ) % (params.q as int),
        decreases groups - g,
    {
        let base = 4 * g;
        let b0: u64 = if base < m { x[base] } else { 0 };
        let b1: u64 = if base + 1 < m { x[base + 1] } else { 0 };
        let b2: u64 = if base + 2 < m { x[base + 2] } else { 0 };
        let b3: u64 = if base + 3 < m { x[base + 3] } else { 0 };
        let nib: u64 = b0 | (b1 << 1u64) | (b2 << 2u64) | (b3 << 3u64);
        assert(nib < 16 && (nib >> 0u64) & 1 == b0 && (nib >> 1u64) & 1 == b1 && (nib >> 2u64) & 1
            == b2 && (nib >> 3u64) & 1 == b3) by (bit_vector)
            requires
                b0 <= 1,
                b1 <= 1,
                b2 <= 1,
                b3 <= 1,
                nib == b0 | (b1 << 1u64) | (b2 << 2u64) | (b3 << 3u64),
        ;
        proof {
            assert forall|t: int| 0 <= t < 4 implies #[trigger] ((nib >> (t as u64)) & 1) == if 4
                * g + t < x@.len() {
                x@[4 * g + t]
            } else {
                0
            } by {
                if t == 0 {
                } else if t == 1 {
                } else if t == 2 {
                } else {
                }
            }
            assert(nibble_bits_match(x@, g as int, nib));
        }
        let entry = &table[16 * g + nib as usize];
        let ghost acc0 = acc@;
        let mut j: usize = 0;
        while j < cols
            invariant
                params.wf(),
                0 < params.q <= 0x8000_0000,
                m == x@.len(),
                x@.len() == a@.len(),
                g < groups,
                entry@.len() == cols,
                all_below(entry@, params.q as nat),
                forall|jj: int|
                    0 <= jj < cols ==> #[trigger] entry@[jj] as int == group_sum(
                        a@,
                        g as int,
                        nib,
                        jj,
                        4,
                    ) % (params.q as int),
                nibble_bits_match(x@, g as int, nib),
                acc@.len() == cols,
                acc0.len() == cols,
                0 <= j <= cols,
                forall|t: int|
                    0 <= t < cols ==> #[trigger] acc0[t] as int == col_dot(
                        x@,
                        a@,
                        t,
                        min(4 * g, m as int) as nat,
                    ) % (params.q as int),
                forall|t: int| j <= t < cols ==> #[trigger] acc@[t] == acc0[t],
                forall|t: int|
                    0 <= t < j ==> #[trigger] acc@[t] as int == col_dot(
                        x@,
                        a@,
                        t,
                        min(4 * g + 4, m as int) as nat,
                    ) % (params.q as int),
            decreases cols - j,
        {
            proof {
                lemma_group_step(x@, a@, j as int, g as int, nib, 4);
                let c0 = col_dot(x@, a@, j as int, min(4 * g, m as int) as nat);
                let gs = group_sum(a@, g as int, nib, j as int, 4);
                lemma_add_mod_noop(c0, gs, params.q as int);
            }
            let v = reduce(acc[j] + entry[j], params);
            acc.set(j, v);
            j = j + 1;
        }
        g = g + 1;
    }
    proof {
        assert(min(4 * groups, m as int) == m as int);
        assert(acc@ =~= row_times(x@, a@, cols as nat, params.q as nat));
    }
    acc
}

} // verus!
