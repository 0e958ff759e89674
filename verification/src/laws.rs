//! The library's stated laws: what normalization does to column sums and
//! to zero columns, what inflation at the identity exponent is, and what
//! pruning preserves.

use vstd::prelude::*;
use crate::fixed::{SCALE, TOL, abs_i, lemma_powf_one};
use crate::matrix::{ent, wf_seq, lemma_flat_index};
use crate::mcl::{nonneg_seq, col_abs_sum, col_sum, norm_scale, normalize_mat, pow_map,
    inflate_mat, col_argmax, prune_mat, lemma_col_abs_sum_nonneg, lemma_col_argmax_char};
use vstd::arithmetic::div_mod::{lemma_fundamental_div_mod, lemma_mod_bound};
use vstd::arithmetic::mul::lemma_mul_is_distributive_add;

verus! {

proof fn lemma_norm_col_sum_parts(m: Seq<int>, n: int, c: int, s: int, k: int)
    requires
        wf_seq(m, n),
        nonneg_seq(m),
        0 <= c < n,
        s == col_abs_sum(m, n, c, n),
        s > 0,
        0 <= k <= n,
    ensures
        s * col_sum(normalize_mat(m, n), n, c, k) <= SCALE * col_abs_sum(m, n, c, k),
        s * col_sum(normalize_mat(m, n), n, c, k) >= SCALE * col_abs_sum(m, n, c, k) - k * s,
    decreases k,
{
    let norm = normalize_mat(m, n);
    if k == 0 {
        assert(s * 0 == 0) by (nonlinear_arith);
    } else {
        lemma_norm_col_sum_parts(m, n, c, s, k - 1);
        lemma_flat_index(n, k - 1, c);
        let idx = (k - 1) * n + c;
        let x = m[idx];
        assert(x >= 0);
        assert(abs_i(ent(m, n, k - 1, c)) == x);
        assert(norm_scale(m, n, c) == s);
        let q = ent(norm, n, k - 1, c);
        assert(q == (x * SCALE) / s);
        lemma_fundamental_div_mod(x * SCALE, s);
        lemma_mod_bound(x * SCALE, s);
        let rem = (x * SCALE) % s;
        assert(s * q == x * SCALE - rem);
        let prevsum = col_sum(norm, n, c, k - 1);
        assert(col_sum(norm, n, c, k) == prevsum + q);
        lemma_mul_is_distributive_add(s, prevsum, q);
        assert(s * (prevsum + q) == s * prevsum + s * q);
        assert(col_abs_sum(m, n, c, k) == col_abs_sum(m, n, c, k - 1) + x);
        assert((k - 1) * s == k * s - s) by (nonlinear_arith);
    }
}

/// Law: on a nonnegative matrix, normalization makes every column with a
/// nonzero scale sum to one within the tolerance; exactly, the column sum
/// falls short of `SCALE` by less than one truncated unit per row.
pub proof fn lemma_normalize_column_sums(m: Seq<int>, n: int, c: int)
    requires
        wf_seq(m, n),
        nonneg_seq(m),
        0 <= c < n,
        col_abs_sum(m, n, c, n) != 0,
    ensures
        SCALE - n <= col_sum(normalize_mat(m, n), n, c, n) <= SCALE,
        abs_i(col_sum(normalize_mat(m, n), n, c, n) - SCALE) <= TOL,
{
    let s = col_abs_sum(m, n, c, n);
    lemma_col_abs_sum_nonneg(m, n, c, n);
    assert(s > 0);
    lemma_norm_col_sum_parts(m, n, c, s, n);
    let total = col_sum(normalize_mat(m, n), n, c, n);
    assert(total <= SCALE) by (nonlinear_arith)
        requires
            s > 0 && s * total <= SCALE * s,
    ;
    assert(total >= SCALE - n) by (nonlinear_arith)
        requires
            s > 0 && s * total >= SCALE * s - n * s,
    ;
}

proof fn lemma_col_abs_sum_zero(m: Seq<int>, n: int, c: int, k: int)
    requires
        k <= n,
        forall|r: int| 0 <= r < n ==> #[trigger] ent(m, n, r, c) == 0,
    ensures
        col_abs_sum(m, n, c, k) == 0,
    decreases k,
{
    if k > 0 {
        lemma_col_abs_sum_zero(m, n, c, k - 1);
    }
}

/// Law: a column whose entries are all exactly zero stays all zero under
/// normalization; the zero scale is replaced, never divided by.
pub proof fn lemma_normalize_zero_column(m: Seq<int>, n: int, c: int)
    requires
        wf_seq(m, n),
        0 <= c < n,
        forall|r: int| 0 <= r < n ==> #[trigger] ent(m, n, r, c) == 0,
    ensures
        forall|r: int| 0 <= r < n ==> #[trigger] ent(normalize_mat(m, n), n, r, c) == 0,
{
    lemma_col_abs_sum_zero(m, n, c, n);
    assert(norm_scale(m, n, c) == SCALE);
    assert forall|r: int| 0 <= r < n implies #[trigger] ent(normalize_mat(m, n), n, r, c)
        == 0 by {
        lemma_flat_index(n, r, c);
        assert(m[r * n + c] == ent(m, n, r, c));
        assert(ent(normalize_mat(m, n), n, r, c) == (0 * SCALE) / (SCALE as int));
        vstd::arithmetic::div_mod::lemma_div_of0(SCALE as int);
    }
}

/// Law: inflation with the identity exponent is exactly normalization:
/// raising every entry of a nonnegative matrix to the power one leaves it
/// unchanged, so only the closing normalization remains.
pub proof fn lemma_inflate_one_is_normalize(m: Seq<int>, n: int)
    requires
        wf_seq(m, n),
        nonneg_seq(m),
    ensures
        inflate_mat(m, n, SCALE as int) == normalize_mat(m, n),
{
    assert forall|i: int| 0 <= i < m.len() implies pow_map(m, SCALE as int)[i] == #[trigger] m[i]
        by {
        lemma_powf_one(m[i]);
    }
    assert(pow_map(m, SCALE as int) =~= m);
}

/// Law: pruning never zeroes a column's first maximal entry, whatever the
/// threshold; that entry keeps its value and bounds the whole column.
pub proof fn lemma_prune_keeps_column_max(m: Seq<int>, n: int, t: int, c: int)
    requires
        wf_seq(m, n),
        1 <= n,
        0 <= c < n,
    ensures
        ({
            let am = col_argmax(m, n, c, n);
            &&& 0 <= am < n
            &&& ent(prune_mat(m, n, t), n, am, c) == ent(m, n, am, c)
            &&& forall|r: int| 0 <= r < n ==> #[trigger] ent(m, n, r, c) <= ent(m, n, am, c)
        }),
{
    lemma_col_argmax_char(m, n, c, n);
    let am = col_argmax(m, n, c, n);
    lemma_flat_index(n, am, c);
}

} // verus!
