//! The Markov-clustering matrix transformations: column normalization,
//! self-loop insertion, matrix-power expansion, elementwise inflation,
//! threshold pruning, and the convergence loop that composes them.
//!
//! Each executable operation is specified against an exact integer-level
//! model of the fixed-point arithmetic.

use vstd::prelude::*;
use crate::fixed::{SCALE, RAW_LIMIT, TOL, N_MAX, abs_i, tdiv, clamp_raw, powf_spec, fx_powf};
use crate::matrix::{Matrix, MclError, PartiqlArgMaxExt, ent, lemma_flat_index};
use vstd::arithmetic::div_mod::{lemma_div_is_ordered, lemma_div_multiples_vanish,
    lemma_div_pos_is_pos};

verus! {

/// Every entry of the model is nonnegative.
pub open spec fn nonneg_seq(m: Seq<int>) -> bool {
    forall|i: int| 0 <= i < m.len() ==> #[trigger] m[i] >= 0
}

/// Sum of the absolute values of the first `k` entries of column `c`:
/// the L1 scale used by normalization.
pub open spec fn col_abs_sum(m: Seq<int>, n: int, c: int, k: int) -> int
    decreases k,
{
    if k <= 0 {
        0
    } else {
        col_abs_sum(m, n, c, k - 1) + abs_i(ent(m, n, k - 1, c))
    }
}

/// Plain sum of the first `k` entries of column `c`.
pub open spec fn col_sum(m: Seq<int>, n: int, c: int, k: int) -> int
    decreases k,
{
    if k <= 0 {
        0
    } else {
        col_sum(m, n, c, k - 1) + ent(m, n, k - 1, c)
    }
}

/// The scale a column is divided by: its L1 norm, with an exactly zero
/// norm replaced by one so the division leaves a zero column zero.
pub open spec fn norm_scale(m: Seq<int>, n: int, c: int) -> int {
    if col_abs_sum(m, n, c, n) == 0 {
        SCALE as int
    } else {
        col_abs_sum(m, n, c, n)
    }
}

/// Column-wise L1 normalization of the model.
pub open spec fn normalize_mat(m: Seq<int>, n: int) -> Seq<int> {
    Seq::new((n * n) as nat, |i: int| tdiv(m[i] * SCALE, norm_scale(m, n, i % n)))
}

/// The model with every diagonal entry replaced by `v`.
pub open spec fn set_diag(m: Seq<int>, n: int, v: int) -> Seq<int> {
    Seq::new((n * n) as nat, |i: int| if i / n == i % n { v } else { m[i] })
}

/// The L1 scale is nonnegative.
pub proof fn lemma_col_abs_sum_nonneg(m: Seq<int>, n: int, c: int, k: int)
    ensures
        col_abs_sum(m, n, c, k) >= 0,
    decreases k,
{
    if k > 0 {
        lemma_col_abs_sum_nonneg(m, n, c, k - 1);
    }
}

/// Each entry of a column is bounded in magnitude by the column's L1 scale.
pub proof fn lemma_col_abs_sum_entry(m: Seq<int>, n: int, c: int, r: int, k: int)
    requires
        0 <= r < k,
    ensures
        abs_i(ent(m, n, r, c)) <= col_abs_sum(m, n, c, k),
    decreases k,
{
    if r == k - 1 {
        lemma_col_abs_sum_nonneg(m, n, c, k - 1);
    } else {
        lemma_col_abs_sum_entry(m, n, c, r, k - 1);
    }
}

/// Dot product of row `r` of `a` and column `c` of `b` over the first `k`
/// terms.
pub open spec fn mm_dot(a: Seq<int>, b: Seq<int>, n: int, r: int, c: int, k: int) -> int
    decreases k,
{
    if k <= 0 {
        0
    } else {
        mm_dot(a, b, n, r, c, k - 1) + ent(a, n, r, k - 1) * ent(b, n, k - 1, c)
    }
}

/// One entry of the fixed-point matrix product: the scaled dot product,
/// truncated toward zero and saturated at the representable range.
pub open spec fn mm_entry(a: Seq<int>, b: Seq<int>, n: int, r: int, c: int) -> int {
    clamp_raw(tdiv(mm_dot(a, b, n, r, c, n), SCALE as int))
}

/// The fixed-point matrix product.
pub open spec fn mat_mul_mat(a: Seq<int>, b: Seq<int>, n: int) -> Seq<int> {
    Seq::new((n * n) as nat, |i: int| mm_entry(a, b, n, i / n, i % n))
}

/// The `p`-th matrix power by successive multiplications; the first power
/// is the matrix itself.
pub open spec fn mat_pow(m: Seq<int>, n: int, p: int) -> Seq<int>
    decreases p,
{
    if p <= 1 {
        m
    } else {
        mat_mul_mat(mat_pow(m, n, p - 1), m, n)
    }
}

/// Elementwise exponentiation of the model.
pub open spec fn pow_map(m: Seq<int>, p: int) -> Seq<int> {
    m.map_values(|x: int| powf_spec(x, p))
}

/// Inflation: elementwise exponentiation followed by re-normalization.
pub open spec fn inflate_mat(m: Seq<int>, n: int, p: int) -> Seq<int> {
    normalize_mat(pow_map(m, p), n)
}

/// First row index attaining the maximum of column `c` among rows `0..k`:
/// a later row takes over only when strictly greater.
pub open spec fn col_argmax(m: Seq<int>, n: int, c: int, k: int) -> int
    decreases k,
{
    if k <= 1 {
        0
    } else {
        let p = col_argmax(m, n, c, k - 1);
        if ent(m, n, k - 1, c) > ent(m, n, p, c) {
            k - 1
        } else {
            p
        }
    }
}

/// Pruning of the model: entries strictly below the threshold become
/// zero, except that each column's first maximal entry keeps its value.
pub open spec fn prune_mat(m: Seq<int>, n: int, t: int) -> Seq<int> {
    Seq::new(
        (n * n) as nat,
        |i: int|
            if i / n == col_argmax(m, n, i % n, n) {
                m[i]
            } else if m[i] < t {
                0
            } else {
                m[i]
            },
    )
}

/// Entrywise closeness within the convergence tolerance.
pub open spec fn all_close(a: Seq<int>, b: Seq<int>) -> bool {
    a.len() == b.len() && forall|i: int| 0 <= i < a.len() ==> abs_i(a[i] - b[i]) <= TOL as int
}

/// One iteration of the convergence loop: expansion then inflation, with
/// pruning when the cadence calls for it.
pub open spec fn mcl_step(m: Seq<int>, n: int, e: int, infl: int, t: int, do_prune: bool) -> Seq<
    int,
> {
    let x = inflate_mat(mat_pow(m, n, e), n, infl);
    if do_prune {
        prune_mat(x, n, t)
    } else {
        x
    }
}

/// The convergence loop from iteration `i` on: it stops at the iteration
/// cap, or early at a checked iteration whose result is within tolerance
/// of its predecessor.
pub open spec fn mcl_loop(
    m: Seq<int>,
    n: int,
    e: int,
    infl: int,
    t: int,
    pf: int,
    cf: int,
    i: nat,
    iters: nat,
) -> Seq<int>
    decreases iters - i,
{
    if i >= iters {
        m
    } else {
        let next = mcl_step(m, n, e, infl, t, (i as int) % pf == pf - 1);
        if (i as int) % cf == cf - 1 && all_close(next, m) {
            next
        } else {
            mcl_loop(next, n, e, infl, t, pf, cf, i + 1, iters)
        }
    }
}

/// The column argmax is the first index attaining the column maximum:
/// no entry exceeds it, and every earlier entry is strictly below it.
pub proof fn lemma_col_argmax_char(m: Seq<int>, n: int, c: int, k: int)
    requires
        1 <= k,
    ensures
        0 <= col_argmax(m, n, c, k) < k,
        forall|r: int|
            0 <= r < k ==> #[trigger] ent(m, n, r, c) <= ent(m, n, col_argmax(m, n, c, k), c),
        forall|r: int|
            0 <= r < col_argmax(m, n, c, k) ==> #[trigger] ent(m, n, r, c) < ent(
                m,
                n,
                col_argmax(m, n, c, k),
                c,
            ),
    decreases k,
{
    if k > 1 {
        lemma_col_argmax_char(m, n, c, k - 1);
    }
}

proof fn lemma_mm_dot_nonneg(a: Seq<int>, b: Seq<int>, n: int, r: int, c: int, k: int)
    requires
        a.len() == n * n,
        b.len() == n * n,
        nonneg_seq(a),
        nonneg_seq(b),
        0 <= r < n,
        0 <= c < n,
        k <= n,
    ensures
        mm_dot(a, b, n, r, c, k) >= 0,
    decreases k,
{
    if k > 0 {
        lemma_mm_dot_nonneg(a, b, n, r, c, k - 1);
        lemma_flat_index(n, r, k - 1);
        lemma_flat_index(n, k - 1, c);
        assert(ent(a, n, r, k - 1) * ent(b, n, k - 1, c) >= 0) by (nonlinear_arith)
            requires
                ent(a, n, r, k - 1) >= 0 && ent(b, n, k - 1, c) >= 0,
        ;
    }
}

proof fn lemma_mat_mul_nonneg(a: Seq<int>, b: Seq<int>, n: int)
    requires
        0 <= n,
        a.len() == n * n,
        b.len() == n * n,
        nonneg_seq(a),
        nonneg_seq(b),
    ensures
        nonneg_seq(mat_mul_mat(a, b, n)),
{
    let p = mat_mul_mat(a, b, n);
    assert forall|i: int| 0 <= i < p.len() implies #[trigger] p[i] >= 0 by {
        assert(n > 0) by (nonlinear_arith)
            requires
                0 <= n && n * n > 0,
        ;
        crate::matrix::lemma_flat_coords(n, i);
        lemma_mm_dot_nonneg(a, b, n, i / n, i % n, n);
        lemma_div_pos_is_pos(mm_dot(a, b, n, i / n, i % n, n), SCALE as int);
    }
}

proof fn lemma_mat_pow_nonneg(m: Seq<int>, n: int, p: int)
    requires
        0 <= n,
        m.len() == n * n,
        nonneg_seq(m),
    ensures
        nonneg_seq(mat_pow(m, n, p)),
        mat_pow(m, n, p).len() == n * n,
    decreases p,
{
    if p > 1 {
        lemma_mat_pow_nonneg(m, n, p - 1);
        lemma_mat_mul_nonneg(mat_pow(m, n, p - 1), m, n);
    }
}

/// The division-by-zero guard of normalization: a column scale of exactly
/// zero is replaced by one (in fixed point, `SCALE`).
fn handle_zeros_in_scale(scale: i128) -> (r: i128)
    requires
        scale >= 0,
    ensures
        r == (if scale == 0 {
            SCALE as int
        } else {
            scale as int
        }),
        r > 0,
{
    if scale == 0 {
        SCALE as i128
    } else {
        scale
    }
}

impl Matrix {
    /// The L1 norm of column `c`: the sum of the absolute values of its
    /// entries, exact in a wide integer.
    fn col_scale_raw(&self, c: usize) -> (s: i128)
        requires
            self.wf(),
            c < self.dim_spec(),
        ensures
            s == col_abs_sum(self.sview(), self.dim_spec(), c as int, self.dim_spec()),
            0 <= s <= self.dim_spec() * (RAW_LIMIT as int),
    {
        let n = self.dim();
        let mut acc: i128 = 0;
        let mut r: usize = 0;
        while r < n
            invariant
                self.wf(),
                c < n,
                n == self.dim_spec(),
                r <= n,
                acc == col_abs_sum(self.sview(), n as int, c as int, r as int),
                0 <= acc <= r * (RAW_LIMIT as int),
            decreases n - r,
        {
            let e = self.get(r, c);
            proof {
                lemma_flat_index(n as int, r as int, c as int);
                assert(-(RAW_LIMIT as int) <= self.sview()[(r as int) * (n as int) + c]
                    <= RAW_LIMIT as int);
            }
            let a: i128 = if e >= 0 {
                e as i128
            } else {
                -(e as i128)
            };
            assert(a == abs_i(self.entry(r as int, c as int)));
            assert(acc + a <= (r + 1) * (RAW_LIMIT as int) && (r + 1) * (RAW_LIMIT as int)
                <= 2_000_000_000_000_000_000_000) by (nonlinear_arith)
                requires
                    acc <= r * (RAW_LIMIT as int),
                    0 <= a <= RAW_LIMIT as int,
                    0 <= r < 10_000,
            ;
            acc = acc + a;
            r = r + 1;
        }
        proof {
            assert(acc <= self.dim_spec() * (RAW_LIMIT as int));
        }
        acc
    }

    /// Scaled division of one entry by a positive column scale; the scale
    /// bounds the entry's magnitude, so the quotient stays within one unit.
    fn div_entry(e: i64, sc: i128) -> (r: i64)
        requires
            sc > 0,
            abs_i(e as int) <= sc,
        ensures
            r == tdiv(e * SCALE, sc as int),
            abs_i(r as int) <= SCALE as int,
    {
        assert((e as i128) * (SCALE as i128) == e * SCALE && -0x40000000000000000000000000000000
            <= e * SCALE <= 0x40000000000000000000000000000000) by (nonlinear_arith)
            requires
                i64::MIN <= e <= i64::MAX,
        ;
        let num: i128 = (e as i128) * (SCALE as i128);
        let q: i128 = crate::fixed::tdiv_i128(num, sc);
        proof {
            let ae = abs_i(e as int);
            let s = sc as int;
            assert(ae * SCALE <= s * SCALE) by (nonlinear_arith)
                requires
                    ae <= s,
                    SCALE > 0,
            ;
            assert(s * (SCALE as int) == s * SCALE);
            lemma_div_multiples_vanish(SCALE as int, s);
            lemma_div_is_ordered(ae * SCALE, s * SCALE, s);
            assert(ae * SCALE >= 0) by (nonlinear_arith)
                requires
                    ae >= 0 && SCALE > 0,
            ;
            lemma_div_pos_is_pos(ae * SCALE, s);
            if e >= 0 {
                assert(ae == e as int);
                assert(q == (ae * SCALE) / s);
            } else {
                assert(num < 0 && -(num as int) == ae * SCALE) by (nonlinear_arith)
                    requires
                        e < 0 && num == (e as int) * SCALE && ae == -(e as int) && SCALE > 0,
                ;
                assert(q == -((ae * SCALE) / s));
            }
            assert(0 <= (ae * SCALE) / s <= SCALE);
        }
        q as i64
    }

    /// Column-wise L1 normalization: each entry divided by its column's
    /// scale, a column of zeroes staying zero.
    fn normalize_core(&self) -> (m: Matrix)
        requires
            self.wf(),
        ensures
            m.wf(),
            m.dim_spec() == self.dim_spec(),
            m.sview() == normalize_mat(self.sview(), self.dim_spec()),
            nonneg_seq(self.sview()) ==> nonneg_seq(m.sview()),
            forall|i: int|
                0 <= i < m.sview().len() ==> abs_i(#[trigger] m.sview()[i]) <= SCALE as int,
    {
        let n = self.dim();
        let ghost model = self.sview();

        let mut scales: Vec<i128> = Vec::new();
        let mut c: usize = 0;
        while c < n
            invariant
                self.wf(),
                n == self.dim_spec(),
                c <= n,
                scales@.len() == c,
                forall|j: int|
                    0 <= j < c ==> #[trigger] (scales@[j] as int) == norm_scale(
                        self.sview(),
                        n as int,
                        j,
                    ) && scales@[j] > 0,
            decreases n - c,
        {
            let s = self.col_scale_raw(c);
            let s = handle_zeros_in_scale(s);
            scales.push(s);
            c = c + 1;
        }

        let mut out: Vec<i64> = Vec::new();
        let mut r: usize = 0;
        while r < n
            invariant
                self.wf(),
                n == self.dim_spec(),
                model == self.sview(),
                r <= n,
                scales@.len() == n,
                forall|j: int|
                    0 <= j < n ==> #[trigger] (scales@[j] as int) == norm_scale(model, n as int, j)
                        && scales@[j] > 0,
                out@.len() == r * n,
                forall|i: int|
                    0 <= i < out@.len() ==> #[trigger] (out@[i] as int) == tdiv(
                        model[i] * SCALE,
                        norm_scale(model, n as int, i % (n as int)),
                    ) && abs_i(out@[i] as int) <= SCALE as int,
            decreases n - r,
        {
            let mut c2: usize = 0;
            while c2 < n
                invariant
                    self.wf(),
                    n == self.dim_spec(),
                    model == self.sview(),
                    r < n,
                    c2 <= n,
                    scales@.len() == n,
                    forall|j: int|
                        0 <= j < n ==> #[trigger] (scales@[j] as int) == norm_scale(
                            model,
                            n as int,
                            j,
                        ) && scales@[j] > 0,
                    out@.len() == r * n + c2,
                    forall|i: int|
                        0 <= i < out@.len() ==> #[trigger] (out@[i] as int) == tdiv(
                            model[i] * SCALE,
                            norm_scale(model, n as int, i % (n as int)),
                        ) && abs_i(out@[i] as int) <= SCALE as int,
                decreases n - c2,
            {
                let e = self.get(r, c2);
                proof {
                    lemma_flat_index(n as int, r as int, c2 as int);
                    let s = col_abs_sum(model, n as int, c2 as int, n as int);
                    lemma_col_abs_sum_entry(model, n as int, c2 as int, r as int, n as int);
                    lemma_col_abs_sum_nonneg(model, n as int, c2 as int, n as int);
                    if s == 0 {
                        assert(abs_i(e as int) <= 0);
                    }
                }
                let v = Self::div_entry(e, scales[c2]);
                out.push(v);
                proof {
                    assert(out@.len() == r * n + c2 + 1);
                    assert((r * n + c2) % (n as int) == c2);
                }
                c2 = c2 + 1;
            }
            r = r + 1;
            assert(out@.len() == r * (n as int)) by (nonlinear_arith)
                requires
                    r >= 1 && out@.len() == (r - 1) * (n as int) + (n as int),
            ;
        }
        let m = Matrix::from_vec(n, out);
        proof {
            assert forall|i: int| 0 <= i < (n as int) * n implies m.sview()[i] == normalize_mat(
                model,
                n as int,
            )[i] by {
                assert(m.sview()[i] == out@[i] as int);
            }
            assert(m.sview() =~= normalize_mat(model, n as int));
            assert forall|i: int| 0 <= i < m.sview().len() implies abs_i(#[trigger] m.sview()[i])
                <= SCALE as int by {
                assert(m.sview()[i] == out@[i] as int);
            }
            if nonneg_seq(model) {
                assert forall|i: int| 0 <= i < m.sview().len() implies #[trigger] m.sview()[i]
                    >= 0 by {
                    let nn = n as int;
                    let sc = norm_scale(model, nn, i % nn);
                    lemma_col_abs_sum_nonneg(model, nn, i % nn, nn);
                    assert(sc > 0);
                    assert(model[i] >= 0);
                    assert(model[i] * SCALE >= 0) by (nonlinear_arith)
                        requires
                            model[i] >= 0,
                    ;
                    lemma_div_pos_is_pos(model[i] * SCALE, sc);
                }
            }
        }
        m
    }

    /// Column-wise L1 normalization of the matrix.
    ///
    /// Each column is divided by the sum of the absolute values of its
    /// entries; a column whose entries are all exactly zero is left all
    /// zero rather than divided by its zero norm.
    pub fn normalize(&self) -> (res: Result<Matrix, MclError>)
        requires
            self.wf(),
        ensures
            res matches Ok(m) && m.wf() && m.dim_spec() == self.dim_spec() && m.sview()
                == normalize_mat(self.sview(), self.dim_spec()) && (forall|i: int|
                0 <= i < m.sview().len() ==> abs_i(#[trigger] m.sview()[i]) <= SCALE as int),
    {
        Ok(self.normalize_core())
    }

    /// Sets every diagonal entry to `loop_value`, in place.
    ///
    /// The matrix type is square by construction, so the square-shape
    /// requirement of this operation always holds and the call always
    /// succeeds.
    pub fn add_self_loop(&mut self, loop_value: i64) -> (res: Result<(), MclError>)
        requires
            old(self).wf(),
            0 <= loop_value <= RAW_LIMIT,
        ensures
            res matches Ok(u) && u == (),
            final(self).wf(),
            final(self).dim_spec() == old(self).dim_spec(),
            final(self).sview() == set_diag(old(self).sview(), old(self).dim_spec(), loop_value
                as int),
    {
        let n = self.dim();
        let ghost model = old(self).sview();
        let mut i: usize = 0;
        while i < n
            invariant
                self.wf(),
                n == self.dim_spec(),
                model.len() == n * n,
                i <= n,
                self.sview().len() == model.len(),
                forall|j: int|
                    0 <= j < model.len() ==> #[trigger] self.sview()[j] == (if j / (n as int) == j
                        % (n as int) && j / (n as int) < i {
                        loop_value as int
                    } else {
                        model[j]
                    }),
                0 <= loop_value <= RAW_LIMIT,
            decreases n - i,
        {
            let ghost prior = self.sview();
            self.set_entry(i, i, loop_value);
            proof {
                lemma_flat_index(n as int, i as int, i as int);
                let nn = n as int;
                let idx = (i as int) * nn + (i as int);
                assert(self.sview() == prior.update(idx, loop_value as int));
                assert forall|j: int| 0 <= j < model.len() implies self.sview()[j] == (if j / nn
                    == j % nn && j / nn < i + 1 {
                    loop_value as int
                } else {
                    model[j]
                }) by {
                    vstd::arithmetic::div_mod::lemma_fundamental_div_mod(j, nn);
                    vstd::arithmetic::div_mod::lemma_mod_bound(j, nn);
                    if j == idx {
                        assert(j / nn == i && j % nn == i);
                        assert(self.sview()[j] == loop_value as int);
                    } else {
                        assert(self.sview()[j] == prior[j]);
                        if j / nn == j % nn && j / nn == i {
                            assert(j == nn * (j / nn) + j % nn);
                            assert(nn * (j / nn) == (j / nn) * nn) by (nonlinear_arith);
                            assert(false);
                        }
                    }
                }
            }
            i = i + 1;
        }
        proof {
            assert forall|j: int| 0 <= j < model.len() implies self.sview()[j] == set_diag(
                model,
                n as int,
                loop_value as int,
            )[j] by {
                let nn = n as int;
                if j / nn == j % nn {
                    assert(0 <= j % nn < nn) by {
                        vstd::arithmetic::div_mod::lemma_mod_bound(j, nn);
                    }
                }
            }
            assert(self.sview() =~= set_diag(model, n as int, loop_value as int));
        }
        Ok(())
    }

    /// The scaled dot product of row `r` of `a` with column `c` of `b`,
    /// accumulated exactly in a wide integer.
    fn dot_entry(a: &Matrix, b: &Matrix, r: usize, c: usize) -> (v: i64)
        requires
            a.wf(),
            b.wf(),
            a.dim_spec() == b.dim_spec(),
            r < a.dim_spec(),
            c < a.dim_spec(),
        ensures
            v == mm_entry(a.sview(), b.sview(), a.dim_spec(), r as int, c as int),
            -RAW_LIMIT <= v <= RAW_LIMIT,
    {
        let n = a.dim();
        let mut acc: i128 = 0;
        let mut k: usize = 0;
        while k < n
            invariant
                a.wf(),
                b.wf(),
                n == a.dim_spec(),
                n == b.dim_spec(),
                r < n,
                c < n,
                k <= n,
                n <= N_MAX,
                acc == mm_dot(a.sview(), b.sview(), n as int, r as int, c as int, k as int),
                -((k as int) * 10_000_000_000_000_000_000_000_000_000_000_000) <= acc <= (k as int)
                    * 10_000_000_000_000_000_000_000_000_000_000_000,
            decreases n - k,
        {
            let x = a.get(r, k);
            let y = b.get(k, c);
            proof {
                lemma_flat_index(n as int, r as int, k as int);
                lemma_flat_index(n as int, k as int, c as int);
                assert(-(RAW_LIMIT as int) <= a.sview()[(r as int) * (n as int) + k]
                    <= RAW_LIMIT as int);
                assert(-(RAW_LIMIT as int) <= b.sview()[(k as int) * (n as int) + c]
                    <= RAW_LIMIT as int);
            }
            assert((x as i128) * (y as i128) == x * y
                && -10_000_000_000_000_000_000_000_000_000_000_000 <= x * y
                <= 10_000_000_000_000_000_000_000_000_000_000_000) by (nonlinear_arith)
                requires
                    -(RAW_LIMIT as int) <= x <= RAW_LIMIT as int,
                    -(RAW_LIMIT as int) <= y <= RAW_LIMIT as int,
            ;
            let p: i128 = (x as i128) * (y as i128);
            assert((k + 1) * 10_000_000_000_000_000_000_000_000_000_000_000
                <= 100_000_000_000_000_000_000_000_000_000_000_000_000) by (nonlinear_arith)
                requires
                    0 <= k < 10_000,
            ;
            acc = acc + p;
            k = k + 1;
        }
        let q: i128 = crate::fixed::tdiv_i128(acc, SCALE as i128);
        if q > RAW_LIMIT as i128 {
            RAW_LIMIT
        } else if q < -(RAW_LIMIT as i128) {
            -RAW_LIMIT
        } else {
            q as i64
        }
    }

    /// The fixed-point product of two matrices of equal dimension.
    fn matmul_core(a: &Matrix, b: &Matrix) -> (m: Matrix)
        requires
            a.wf(),
            b.wf(),
            a.dim_spec() == b.dim_spec(),
        ensures
            m.wf(),
            m.dim_spec() == a.dim_spec(),
            m.sview() == mat_mul_mat(a.sview(), b.sview(), a.dim_spec()),
    {
        let n = a.dim();
        let mut out: Vec<i64> = Vec::new();
        let mut r: usize = 0;
        while r < n
            invariant
                a.wf(),
                b.wf(),
                n == a.dim_spec(),
                n == b.dim_spec(),
                r <= n,
                out@.len() == r * n,
                forall|i: int|
                    0 <= i < out@.len() ==> #[trigger] (out@[i] as int) == mm_entry(
                        a.sview(),
                        b.sview(),
                        n as int,
                        i / (n as int),
                        i % (n as int),
                    ) && -(RAW_LIMIT as int) <= out@[i] <= RAW_LIMIT as int,
            decreases n - r,
        {
            let mut c: usize = 0;
            while c < n
                invariant
                    a.wf(),
                    b.wf(),
                    n == a.dim_spec(),
                    n == b.dim_spec(),
                    r < n,
                    c <= n,
                    out@.len() == r * n + c,
                    forall|i: int|
                        0 <= i < out@.len() ==> #[trigger] (out@[i] as int) == mm_entry(
                            a.sview(),
                            b.sview(),
                            n as int,
                            i / (n as int),
                            i % (n as int),
                        ) && -(RAW_LIMIT as int) <= out@[i] <= RAW_LIMIT as int,
                decreases n - c,
            {
                let v = Self::dot_entry(a, b, r, c);
                out.push(v);
                proof {
                    lemma_flat_index(n as int, r as int, c as int);
                }
                c = c + 1;
            }
            r = r + 1;
            assert(out@.len() == r * (n as int)) by (nonlinear_arith)
                requires
                    r >= 1 && out@.len() == (r - 1) * (n as int) + (n as int),
            ;
        }
        let m = Matrix::from_vec(n, out);
        proof {
            assert forall|i: int| 0 <= i < (n as int) * n implies m.sview()[i] == mat_mul_mat(
                a.sview(),
                b.sview(),
                n as int,
            )[i] by {
                assert(m.sview()[i] == out@[i] as int);
            }
            assert(m.sview() =~= mat_mul_mat(a.sview(), b.sview(), n as int));
        }
        m
    }

    /// The `power`-th matrix power by successive multiplications.
    fn expand_core(&self, power: i32) -> (m: Matrix)
        requires
            self.wf(),
            power >= 1,
        ensures
            m.wf(),
            m.dim_spec() == self.dim_spec(),
            m.sview() == mat_pow(self.sview(), self.dim_spec(), power as int),
    {
        let mut mat = self.copy_of();
        let mut i: i32 = 0;
        while i < power - 1
            invariant
                self.wf(),
                mat.wf(),
                mat.dim_spec() == self.dim_spec(),
                0 <= i <= power - 1,
                mat.sview() == mat_pow(self.sview(), self.dim_spec(), i + 1),
            decreases power - 1 - i,
        {
            mat = Self::matmul_core(&mat, self);
            i = i + 1;
        }
        mat
    }

    /// Cluster expansion: the `power`-th matrix power, computed by
    /// `power - 1` successive multiplications.  The first power returns
    /// the matrix unchanged.
    pub fn expand(&self, power: i32) -> (res: Result<Matrix, MclError>)
        requires
            self.wf(),
            power >= 1,
        ensures
            res matches Ok(m) && m.wf() && m.dim_spec() == self.dim_spec() && m.sview() == mat_pow(
                self.sview(),
                self.dim_spec(),
                power as int,
            ),
            res matches Ok(m) ==> (power == 1 ==> m.sview() == self.sview()),
            res matches Ok(m) ==> (nonneg_seq(self.sview()) ==> nonneg_seq(m.sview())),
    {
        let m = self.expand_core(power);
        proof {
            if nonneg_seq(self.sview()) {
                lemma_mat_pow_nonneg(self.sview(), self.dim_spec(), power as int);
            }
        }
        Ok(m)
    }

    /// Elementwise exponentiation followed by re-normalization.
    fn inflate_core(&self, power: i64) -> (m: Matrix)
        requires
            self.wf(),
            nonneg_seq(self.sview()),
            0 < power <= RAW_LIMIT,
        ensures
            m.wf(),
            m.dim_spec() == self.dim_spec(),
            m.sview() == inflate_mat(self.sview(), self.dim_spec(), power as int),
            nonneg_seq(m.sview()),
            forall|i: int|
                0 <= i < m.sview().len() ==> abs_i(#[trigger] m.sview()[i]) <= SCALE as int,
    {
        let n = self.dim();
        let ghost model = self.sview();
        let mut out: Vec<i64> = Vec::new();
        let mut r: usize = 0;
        while r < n
            invariant
                self.wf(),
                n == self.dim_spec(),
                model == self.sview(),
                nonneg_seq(model),
                0 < power <= RAW_LIMIT,
                r <= n,
                out@.len() == r * n,
                forall|i: int|
                    0 <= i < out@.len() ==> #[trigger] (out@[i] as int) == powf_spec(
                        model[i],
                        power as int,
                    ) && 0 <= out@[i] <= RAW_LIMIT,
            decreases n - r,
        {
            let mut c: usize = 0;
            while c < n
                invariant
                    self.wf(),
                    n == self.dim_spec(),
                    model == self.sview(),
                    nonneg_seq(model),
                    0 < power <= RAW_LIMIT,
                    r < n,
                    c <= n,
                    out@.len() == r * n + c,
                    forall|i: int|
                        0 <= i < out@.len() ==> #[trigger] (out@[i] as int) == powf_spec(
                            model[i],
                            power as int,
                        ) && 0 <= out@[i] <= RAW_LIMIT,
                decreases n - c,
            {
                let e = self.get(r, c);
                proof {
                    lemma_flat_index(n as int, r as int, c as int);
                }
                let v = fx_powf(e, power);
                out.push(v);
                c = c + 1;
            }
            r = r + 1;
            assert(out@.len() == r * (n as int)) by (nonlinear_arith)
                requires
                    r >= 1 && out@.len() == (r - 1) * (n as int) + (n as int),
            ;
        }
        let powed = Matrix::from_vec(n, out);
        proof {
            assert forall|i: int| 0 <= i < (n as int) * n implies powed.sview()[i] == pow_map(
                model,
                power as int,
            )[i] by {
                assert(powed.sview()[i] == out@[i] as int);
            }
            assert(powed.sview() =~= pow_map(model, power as int));
        }
        powed.normalize_core()
    }

    /// Cluster inflation: elementwise exponentiation by `power` followed
    /// by column normalization, favoring strong transitions over weak
    /// ones.
    pub fn inflate(&self, power: i64) -> (res: Result<Matrix, MclError>)
        requires
            self.wf(),
            nonneg_seq(self.sview()),
            0 < power <= RAW_LIMIT,
        ensures
            res matches Ok(m) && m.wf() && m.dim_spec() == self.dim_spec() && m.sview()
                == inflate_mat(self.sview(), self.dim_spec(), power as int) && nonneg_seq(
                m.sview(),
            ) && (forall|i: int|
                0 <= i < m.sview().len() ==> abs_i(#[trigger] m.sview()[i]) <= SCALE as int),
    {
        Ok(self.inflate_core(power))
    }

    /// The entries of column `c`, top to bottom.
    fn column_vec(&self, c: usize) -> (v: Vec<i64>)
        requires
            self.wf(),
            c < self.dim_spec(),
        ensures
            v@.len() == self.dim_spec(),
            forall|r: int|
                0 <= r < v@.len() ==> #[trigger] (v@[r] as int) == ent(
                    self.sview(),
                    self.dim_spec(),
                    r,
                    c as int,
                ),
    {
        let n = self.dim();
        let mut v: Vec<i64> = Vec::new();
        let mut r: usize = 0;
        while r < n
            invariant
                self.wf(),
                n == self.dim_spec(),
                c < n,
                r <= n,
                v@.len() == r,
                forall|j: int|
                    0 <= j < r ==> #[trigger] (v@[j] as int) == ent(
                        self.sview(),
                        n as int,
                        j,
                        c as int,
                    ),
            decreases n - r,
        {
            v.push(self.get(r, c));
            r = r + 1;
        }
        v
    }

    /// Threshold pruning with the per-column maximum preserved.
    fn prune_core(&self, threshold: i64) -> (m: Matrix)
        requires
            self.wf(),
            threshold >= 0,
        ensures
            m.wf(),
            m.dim_spec() == self.dim_spec(),
            m.sview() == prune_mat(self.sview(), self.dim_spec(), threshold as int),
            nonneg_seq(self.sview()) ==> nonneg_seq(m.sview()),
            (forall|i: int|
                0 <= i < self.sview().len() ==> abs_i(#[trigger] self.sview()[i]) <= SCALE as int)
                ==> (forall|i: int|
                0 <= i < m.sview().len() ==> abs_i(#[trigger] m.sview()[i]) <= SCALE as int),
    {
        let n = self.dim();
        let ghost model = self.sview();

        let mut amax: Vec<usize> = Vec::new();
        let mut c: usize = 0;
        while c < n
            invariant
                self.wf(),
                n == self.dim_spec(),
                model == self.sview(),
                c <= n,
                amax@.len() == c,
                forall|j: int|
                    0 <= j < c ==> #[trigger] (amax@[j] as int) == col_argmax(
                        model,
                        n as int,
                        j,
                        n as int,
                    ),
            decreases n - c,
        {
            let col = self.column_vec(c);
            let am = match col.argmax() {
                Ok(idx) => idx,
                Err(_) => 0,
            };
            proof {
                let nn = n as int;
                lemma_col_argmax_char(model, nn, c as int, nn);
                let cam = col_argmax(model, nn, c as int, nn);
                let s = col.amax_view();
                assert(forall|r: int|
                    0 <= r < nn ==> #[trigger] s[r] == ent(model, nn, r, c as int));
                if (am as int) < cam {
                    assert(ent(model, nn, am as int, c as int) < ent(model, nn, cam, c as int));
                    assert(s[cam] <= s[am as int]);
                    assert(false);
                } else if cam < am as int {
                    assert(s[cam] < s[am as int]);
                    assert(ent(model, nn, am as int, c as int) <= ent(model, nn, cam, c as int));
                    assert(false);
                }
            }
            amax.push(am);
            c = c + 1;
        }

        let mut out: Vec<i64> = Vec::new();
        let mut r: usize = 0;
        while r < n
            invariant
                self.wf(),
                n == self.dim_spec(),
                model == self.sview(),
                threshold >= 0,
                amax@.len() == n,
                forall|j: int|
                    0 <= j < n ==> #[trigger] (amax@[j] as int) == col_argmax(
                        model,
                        n as int,
                        j,
                        n as int,
                    ),
                r <= n,
                out@.len() == r * n,
                forall|i: int|
                    0 <= i < out@.len() ==> #[trigger] (out@[i] as int) == (if i / (n as int)
                        == col_argmax(model, n as int, i % (n as int), n as int) {
                        model[i]
                    } else if model[i] < threshold {
                        0
                    } else {
                        model[i]
                    }) && -(RAW_LIMIT as int) <= out@[i] <= RAW_LIMIT as int,
            decreases n - r,
        {
            let mut c2: usize = 0;
            while c2 < n
                invariant
                    self.wf(),
                    n == self.dim_spec(),
                    model == self.sview(),
                    threshold >= 0,
                    amax@.len() == n,
                    forall|j: int|
                        0 <= j < n ==> #[trigger] (amax@[j] as int) == col_argmax(
                            model,
                            n as int,
                            j,
                            n as int,
                        ),
                    r < n,
                    c2 <= n,
                    out@.len() == r * n + c2,
                    forall|i: int|
                        0 <= i < out@.len() ==> #[trigger] (out@[i] as int) == (if i / (n as int)
                            == col_argmax(model, n as int, i % (n as int), n as int) {
                            model[i]
                        } else if model[i] < threshold {
                            0
                        } else {
                            model[i]
                        }) && -(RAW_LIMIT as int) <= out@[i] <= RAW_LIMIT as int,
                decreases n - c2,
            {
                let e = self.get(r, c2);
                let v = if r == amax[c2] {
                    e
                } else if e < threshold {
                    0
                } else {
                    e
                };
                out.push(v);
                proof {
                    lemma_flat_index(n as int, r as int, c2 as int);
                }
                c2 = c2 + 1;
            }
            r = r + 1;
            assert(out@.len() == r * (n as int)) by (nonlinear_arith)
                requires
                    r >= 1 && out@.len() == (r - 1) * (n as int) + (n as int),
            ;
        }
        let m = Matrix::from_vec(n, out);
        proof {
            assert forall|i: int| 0 <= i < (n as int) * n implies m.sview()[i] == prune_mat(
                model,
                n as int,
                threshold as int,
            )[i] by {
                assert(m.sview()[i] == out@[i] as int);
            }
            assert(m.sview() =~= prune_mat(model, n as int, threshold as int));
            if nonneg_seq(model) {
                assert forall|i: int| 0 <= i < m.sview().len() implies #[trigger] m.sview()[i]
                    >= 0 by {
                    assert(m.sview()[i] == out@[i] as int);
                    assert(model[i] >= 0);
                }
            }
            if forall|i: int|
                0 <= i < model.len() ==> abs_i(#[trigger] model[i]) <= SCALE as int {
                assert forall|i: int| 0 <= i < m.sview().len() implies abs_i(
                    #[trigger] m.sview()[i],
                ) <= SCALE as int by {
                    assert(m.sview()[i] == out@[i] as int);
                    assert(abs_i(model[i]) <= SCALE as int);
                }
            }
        }
        m
    }

    /// Threshold pruning: zeroes every entry strictly below `threshold`,
    /// except the first maximal entry of each column, which always keeps
    /// its value so no column loses its last nonzero entry.
    pub fn prune(&self, threshold: i64) -> (res: Result<Matrix, MclError>)
        requires
            self.wf(),
            threshold >= 0,
        ensures
            res matches Ok(m) && m.wf() && m.dim_spec() == self.dim_spec() && m.sview()
                == prune_mat(self.sview(), self.dim_spec(), threshold as int),
            res matches Ok(m) ==> (nonneg_seq(self.sview()) ==> nonneg_seq(m.sview())),
            res matches Ok(m) ==> ((forall|i: int|
                0 <= i < self.sview().len() ==> abs_i(#[trigger] self.sview()[i]) <= SCALE as int)
                ==> (forall|i: int|
                0 <= i < m.sview().len() ==> abs_i(#[trigger] m.sview()[i]) <= SCALE as int)),
    {
        Ok(self.prune_core(threshold))
    }

    /// Entrywise comparison of two matrices against the convergence
    /// tolerance.
    fn all_close_exec(a: &Matrix, b: &Matrix) -> (r: bool)
        requires
            a.wf(),
            b.wf(),
            a.dim_spec() == b.dim_spec(),
        ensures
            r == all_close(a.sview(), b.sview()),
    {
        let n = a.dim();
        let mut row: usize = 0;
        while row < n
            invariant
                a.wf(),
                b.wf(),
                n == a.dim_spec(),
                n == b.dim_spec(),
                row <= n,
                forall|i: int|
                    0 <= i < row * (n as int) ==> #[trigger] abs_i(a.sview()[i] - b.sview()[i])
                        <= TOL as int,
            decreases n - row,
        {
            let mut c: usize = 0;
            while c < n
                invariant
                    a.wf(),
                    b.wf(),
                    n == a.dim_spec(),
                    n == b.dim_spec(),
                    row < n,
                    c <= n,
                    forall|i: int|
                        0 <= i < row * (n as int) + c ==> #[trigger] abs_i(
                            a.sview()[i] - b.sview()[i],
                        ) <= TOL as int,
                decreases n - c,
            {
                let x = a.get(row, c);
                let y = b.get(row, c);
                proof {
                    lemma_flat_index(n as int, row as int, c as int);
                }
                let d = x - y;
                if d > TOL || d < -TOL {
                    proof {
                        let i0 = (row as int) * (n as int) + c;
                        assert(abs_i(a.sview()[i0] - b.sview()[i0]) > TOL as int);
                    }
                    return false;
                }
                c = c + 1;
            }
            row = row + 1;
            assert(row * (n as int) == (row - 1) * (n as int) + (n as int)) by (nonlinear_arith)
                requires
                    row >= 1,
            ;
        }
        proof {
            assert(a.sview().len() == (n as int) * n);
        }
        true
    }

    /// The full Markov-clustering loop.
    ///
    /// When `loop_value` is positive the matrix first receives self-loops;
    /// it is then normalized once, and each iteration expands, inflates,
    /// and on its cadence prunes, until a checked iteration changes the
    /// matrix by no more than the tolerance or the iteration cap is
    /// reached.
    pub fn mcl(
        &self,
        expansion: i32,
        inflation: i64,
        loop_value: i64,
        iterations: usize,
        pruning_threshold: i64,
        pruning_frequency: usize,
        convergence_check_frequency: usize,
    ) -> (res: Result<Matrix, MclError>)
        requires
            self.wf(),
            nonneg_seq(self.sview()),
            expansion >= 1,
            0 < inflation <= RAW_LIMIT,
            0 <= loop_value <= RAW_LIMIT,
            pruning_threshold >= 0,
            pruning_frequency >= 1,
            convergence_check_frequency >= 1,
        ensures
            res matches Ok(m) && m.wf() && m.dim_spec() == self.dim_spec() && nonneg_seq(
                m.sview(),
            ) && (forall|i: int|
                0 <= i < m.sview().len() ==> abs_i(#[trigger] m.sview()[i]) <= SCALE as int) && ({
                let start = normalize_mat(
                    if loop_value > 0 {
                        set_diag(self.sview(), self.dim_spec(), loop_value as int)
                    } else {
                        self.sview()
                    },
                    self.dim_spec(),
                );
                m.sview() == mcl_loop(
                    start,
                    self.dim_spec(),
                    expansion as int,
                    inflation as int,
                    pruning_threshold as int,
                    pruning_frequency as int,
                    convergence_check_frequency as int,
                    0,
                    iterations as nat,
                )
            }),
    {
        let ghost nn = self.dim_spec();
        let mut mat = self.copy_of();
        if loop_value > 0 {
            let _ = mat.add_self_loop(loop_value);
            proof {
                assert forall|i: int| 0 <= i < mat.sview().len() implies #[trigger] mat.sview()[i]
                    >= 0 by {
                    assert(mat.sview()[i] == set_diag(self.sview(), nn, loop_value as int)[i]);
                }
            }
        }
        mat = mat.normalize_core();
        let ghost start = mat.sview();
        let mut i: usize = 0;
        while i < iterations
            invariant
                mat.wf(),
                mat.dim_spec() == nn,
                nn == self.dim_spec(),
                nonneg_seq(mat.sview()),
                forall|k: int|
                    0 <= k < mat.sview().len() ==> abs_i(#[trigger] mat.sview()[k])
                        <= SCALE as int,
                i <= iterations,
                start == normalize_mat(
                    if loop_value > 0 {
                        set_diag(self.sview(), nn, loop_value as int)
                    } else {
                        self.sview()
                    },
                    nn,
                ),
                expansion >= 1,
                0 < inflation <= RAW_LIMIT,
                pruning_threshold >= 0,
                pruning_frequency >= 1,
                convergence_check_frequency >= 1,
                mcl_loop(
                    mat.sview(),
                    nn,
                    expansion as int,
                    inflation as int,
                    pruning_threshold as int,
                    pruning_frequency as int,
                    convergence_check_frequency as int,
                    i as nat,
                    iterations as nat,
                ) == mcl_loop(
                    start,
                    nn,
                    expansion as int,
                    inflation as int,
                    pruning_threshold as int,
                    pruning_frequency as int,
                    convergence_check_frequency as int,
                    0,
                    iterations as nat,
                ),
            decreases iterations - i,
        {
            let last = mat.copy_of();
            let ghost prev = mat.sview();
            proof {
                lemma_mat_pow_nonneg(prev, nn, expansion as int);
            }
            mat = mat.expand_core(expansion);
            mat = mat.inflate_core(inflation);
            if i % pruning_frequency == pruning_frequency - 1 {
                mat = mat.prune_core(pruning_threshold);
            }
            proof {
                assert(mat.sview() == mcl_step(
                    prev,
                    nn,
                    expansion as int,
                    inflation as int,
                    pruning_threshold as int,
                    (i as int) % (pruning_frequency as int) == pruning_frequency - 1,
                ));
            }
            if i % convergence_check_frequency == convergence_check_frequency - 1 {
                if Self::all_close_exec(&mat, &last) {
                    proof {
                        assert(last.sview() == prev);
                        assert(all_close(mat.sview(), prev));
                        assert((i as int) % (convergence_check_frequency as int)
                            == convergence_check_frequency - 1);
                        assert(mcl_loop(
                            prev,
                            nn,
                            expansion as int,
                            inflation as int,
                            pruning_threshold as int,
                            pruning_frequency as int,
                            convergence_check_frequency as int,
                            i as nat,
                            iterations as nat,
                        ) == mat.sview());
                    }
                    return Ok(mat);
                }
            }
            i = i + 1;
        }
        Ok(mat)
    }
}

} // verus!
