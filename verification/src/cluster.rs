//! Cluster extraction from a terminal matrix.
//!
//! An attractor is an index whose diagonal entry is nonzero; its cluster is
//! the set of column indices whose entries are nonzero in its row.  Clusters
//! from different attractors that coincide collapse to one, and the result
//! is ordered lexicographically by content, so the output is deterministic
//! whatever the discovery order.

use vstd::prelude::*;
use crate::matrix::{Matrix, ent};

verus! {

/// An index `a` is an attractor of the model: its diagonal entry is
/// nonzero.
pub open spec fn is_attractor(m: Seq<int>, n: int, a: int) -> bool {
    ent(m, n, a, a) != 0
}

/// The ascending indices of the nonzero entries among the first `k`
/// columns of row `r`.
pub open spec fn support_upto(m: Seq<int>, n: int, r: int, k: int) -> Seq<usize>
    decreases k,
{
    if k <= 0 {
        Seq::empty()
    } else if ent(m, n, r, k - 1) != 0 {
        support_upto(m, n, r, k - 1).push((k - 1) as usize)
    } else {
        support_upto(m, n, r, k - 1)
    }
}

/// The cluster induced by attractor `r`: the ascending column indices of
/// the nonzero entries of row `r`.
pub open spec fn row_support(m: Seq<int>, n: int, r: int) -> Seq<usize> {
    support_upto(m, n, r, n)
}

/// Strict lexicographic order on index sequences; a proper prefix comes
/// first.
pub open spec fn lex_lt(a: Seq<usize>, b: Seq<usize>) -> bool
    decreases a.len(),
{
    if b.len() == 0 {
        false
    } else if a.len() == 0 {
        true
    } else if a[0] < b[0] {
        true
    } else if a[0] > b[0] {
        false
    } else {
        lex_lt(a.drop_first(), b.drop_first())
    }
}

/// The collection is strictly sorted in lexicographic order.
pub open spec fn sorted_strict(v: Seq<Vec<usize>>) -> bool {
    forall|i: int, j: int| 0 <= i < j < v.len() ==> lex_lt(#[trigger] v[i]@, #[trigger] v[j]@)
}

/// The sequence `s` occurs in the collection.
pub open spec fn seq_in(v: Seq<Vec<usize>>, s: Seq<usize>) -> bool {
    exists|k: int| 0 <= k < v.len() && #[trigger] v[k]@ == s
}

/// The sequence `s` is the cluster some attractor of the model induces.
pub open spec fn is_cluster_of(m: Seq<int>, n: int, s: Seq<usize>) -> bool {
    exists|b: int| 0 <= b < n && is_attractor(m, n, b) && s == #[trigger] row_support(m, n, b)
}

proof fn lemma_support_upto_sorted(m: Seq<int>, n: int, r: int, k: int)
    requires
        k <= usize::MAX,
    ensures
        forall|i: int|
            0 <= i < support_upto(m, n, r, k).len() ==> (#[trigger] support_upto(m, n, r, k)[i]
                as int) < k,
        forall|i: int, j: int|
            0 <= i < j < support_upto(m, n, r, k).len() ==> #[trigger] support_upto(m, n, r, k)[i]
                < #[trigger] support_upto(m, n, r, k)[j],
    decreases k,
{
    if k > 0 {
        lemma_support_upto_sorted(m, n, r, k - 1);
        let sp = support_upto(m, n, r, k - 1);
        let s = support_upto(m, n, r, k);
        if ent(m, n, r, k - 1) != 0 {
            assert(s == sp.push((k - 1) as usize));
            assert(s[sp.len() as int] == (k - 1) as usize);
            assert(forall|i: int| 0 <= i < sp.len() ==> s[i] == #[trigger] sp[i]);
        } else {
            assert(s == sp);
        }
    }
}

proof fn lemma_support_upto_members(m: Seq<int>, n: int, r: int, k: int)
    requires
        0 <= k <= usize::MAX,
    ensures
        forall|c: usize| (#[trigger] support_upto(m, n, r, k).contains(c)) ==> c < k,
        forall|c: usize|
            c < k ==> ((#[trigger] support_upto(m, n, r, k).contains(c)) <==> ent(m, n, r, c as int)
                != 0),
    decreases k,
{
    let s = support_upto(m, n, r, k);
    if k > 0 {
        lemma_support_upto_members(m, n, r, k - 1);
        let sp = support_upto(m, n, r, k - 1);
        if ent(m, n, r, k - 1) != 0 {
            assert(s == sp.push((k - 1) as usize));
            assert forall|c: usize| #[trigger] s.contains(c) implies c < k by {
                let i = choose|i: int| 0 <= i < s.len() && s[i] == c;
                if i < sp.len() {
                    assert(sp[i] == c);
                    assert(sp.contains(c));
                } else {
                    assert(c == (k - 1) as usize);
                }
            }
            assert forall|c: usize| c < k implies (#[trigger] s.contains(c) <==> ent(
                m,
                n,
                r,
                c as int,
            ) != 0) by {
                if c == (k - 1) as usize {
                    assert(s[sp.len() as int] == c);
                    assert(s.contains(c));
                } else {
                    if s.contains(c) {
                        let i = choose|i: int| 0 <= i < s.len() && s[i] == c;
                        assert(i < sp.len());
                        assert(sp[i] == c);
                        assert(sp.contains(c));
                    }
                    if sp.contains(c) {
                        let i = choose|i: int| 0 <= i < sp.len() && sp[i] == c;
                        assert(s[i] == c);
                        assert(s.contains(c));
                    }
                }
            }
        } else {
            assert(s == sp);
            assert forall|c: usize| c < k implies (#[trigger] s.contains(c) <==> ent(
                m,
                n,
                r,
                c as int,
            ) != 0) by {
                if c == (k - 1) as usize {
                    assert(!sp.contains(c));
                }
            }
        }
    }
}

/// Law: a cluster holds exactly the column indices at which its
/// attractor's row is nonzero, each below the dimension, in strictly
/// ascending order.
pub proof fn lemma_row_support_characterization(m: Seq<int>, n: int, r: int)
    requires
        0 <= n <= usize::MAX,
    ensures
        forall|c: usize|
            c < n ==> ((#[trigger] row_support(m, n, r).contains(c)) <==> ent(m, n, r, c as int)
                != 0),
        forall|c: usize| (#[trigger] row_support(m, n, r).contains(c)) ==> c < n,
        forall|i: int, j: int|
            0 <= i < j < row_support(m, n, r).len() ==> #[trigger] row_support(m, n, r)[i]
                < #[trigger] row_support(m, n, r)[j],
{
    lemma_support_upto_sorted(m, n, r, n);
    lemma_support_upto_members(m, n, r, n);
}

/// The lexicographic order is irreflexive.
pub proof fn lemma_lex_irreflexive(a: Seq<usize>)
    ensures
        !lex_lt(a, a),
    decreases a.len(),
{
    if a.len() > 0 {
        lemma_lex_irreflexive(a.drop_first());
    }
}

/// Two sequences that neither precede the other are equal.
pub proof fn lemma_lex_connex(a: Seq<usize>, b: Seq<usize>)
    requires
        !lex_lt(a, b),
        !lex_lt(b, a),
    ensures
        a == b,
    decreases a.len(),
{
    if b.len() == 0 {
        assert(a.len() == 0);
        assert(a =~= b);
    } else {
        assert(a.len() > 0);
        assert(a[0] == b[0]);
        lemma_lex_connex(a.drop_first(), b.drop_first());
        assert(a.drop_first() == b.drop_first());
        assert(a.drop_first().len() == a.len() - 1);
        assert(b.drop_first().len() == b.len() - 1);
        assert(a.len() == b.len());
        assert forall|i: int| 0 <= i < a.len() implies a[i] == b[i] by {
            if i >= 1 {
                assert(a.drop_first()[i - 1] == a[i]);
                assert(b.drop_first()[i - 1] == b[i]);
            }
        }
        assert(a =~= b);
    }
}

/// The lexicographic order is transitive.
pub proof fn lemma_lex_transitive(a: Seq<usize>, b: Seq<usize>, c: Seq<usize>)
    requires
        lex_lt(a, b),
        lex_lt(b, c),
    ensures
        lex_lt(a, c),
    decreases a.len(),
{
    if a.len() > 0 && b.len() > 0 && c.len() > 0 {
        if a[0] == b[0] && b[0] == c[0] {
            lemma_lex_transitive(a.drop_first(), b.drop_first(), c.drop_first());
        }
    }
}

/// Whether `a` lexicographically precedes `b`.
fn lex_lt_exec(a: &Vec<usize>, b: &Vec<usize>) -> (r: bool)
    ensures
        r == lex_lt(a@, b@),
{
    let limit: usize = if a.len() < b.len() {
        a.len()
    } else {
        b.len()
    };
    let mut i: usize = 0;
    proof {
        assert(a@.skip(0) =~= a@);
        assert(b@.skip(0) =~= b@);
    }
    while i < limit
        invariant
            limit <= a@.len(),
            limit <= b@.len(),
            limit == a@.len() || limit == b@.len(),
            i <= limit,
            lex_lt(a@, b@) == lex_lt(a@.skip(i as int), b@.skip(i as int)),
        decreases limit - i,
    {
        let ghost sa = a@.skip(i as int);
        let ghost sb = b@.skip(i as int);
        assert(sa.len() > 0 && sb.len() > 0);
        assert(sa[0] == a@[i as int] && sb[0] == b@[i as int]);
        if a[i] < b[i] {
            assert(lex_lt(sa, sb));
            return true;
        }
        if a[i] > b[i] {
            assert(!lex_lt(sa, sb));
            return false;
        }
        proof {
            assert(sa.drop_first() =~= a@.skip(i + 1));
            assert(sb.drop_first() =~= b@.skip(i + 1));
        }
        i = i + 1;
    }
    proof {
        let sa = a@.skip(limit as int);
        let sb = b@.skip(limit as int);
        if a@.len() < b@.len() {
            assert(sa.len() == 0 && sb.len() > 0);
            assert(lex_lt(sa, sb));
        } else {
            assert(sb.len() == 0);
            assert(!lex_lt(sa, sb));
        }
    }
    a.len() < b.len()
}

/// Whether two index vectors hold the same sequence.
fn vec_eq_exec(a: &Vec<usize>, b: &Vec<usize>) -> (r: bool)
    ensures
        r <==> a@ =~= b@,
{
    if a.len() != b.len() {
        return false;
    }
    let mut i: usize = 0;
    while i < a.len()
        invariant
            a@.len() == b@.len(),
            i <= a@.len(),
            forall|j: int| 0 <= j < i ==> a@[j] == b@[j],
        decreases a@.len() - i,
    {
        if a[i] != b[i] {
            return false;
        }
        i = i + 1;
    }
    true
}

/// Inserts a cluster into a strictly sorted collection, keeping it sorted
/// and dropping the cluster when an equal one is already present.
fn insert_sorted(out: &mut Vec<Vec<usize>>, sup: Vec<usize>)
    requires
        sorted_strict(old(out)@),
    ensures
        sorted_strict(final(out)@),
        forall|s: Seq<usize>|
            #[trigger] seq_in(final(out)@, s) <==> (seq_in(old(out)@, s) || s == sup@),
{
    let mut j: usize = 0;
    while j < out.len()
        invariant
            out@ == old(out)@,
            j <= out@.len(),
            forall|i: int| 0 <= i < j ==> lex_lt(#[trigger] out@[i]@, sup@),
        ensures
            out@ == old(out)@,
            j <= out@.len(),
            forall|i: int| 0 <= i < j ==> lex_lt(#[trigger] out@[i]@, sup@),
            j < out@.len() ==> !lex_lt(out@[j as int]@, sup@),
        decreases out@.len() - j,
    {
        if !lex_lt_exec(&out[j], &sup) {
            break ;
        }
        j = j + 1;
    }
    if j < out.len() && vec_eq_exec(&out[j], &sup) {
        proof {
            assert(out@[j as int]@ == sup@);
            assert(seq_in(out@, sup@));
            assert(forall|s: Seq<usize>|
                seq_in(out@, s) <==> (seq_in(old(out)@, s) || s == sup@));
        }
        return ;
    }
    proof {
        if j < out@.len() {
            assert(!(out@[j as int]@ =~= sup@));
            if !lex_lt(sup@, out@[j as int]@) {
                lemma_lex_connex(out@[j as int]@, sup@);
                assert(false);
            }
        }
    }
    let ghost pre = out@;
    let ghost jj = j as int;
    out.insert(j, sup);
    proof {
        let post = out@;
        assert(post.len() == pre.len() + 1);
        assert(forall|k: int| 0 <= k < jj ==> #[trigger] post[k] == pre[k]);
        assert(post[jj]@ == sup@);
        assert(forall|k: int| jj < k < post.len() ==> #[trigger] post[k] == pre[k - 1]);
        assert forall|x: int, y: int| 0 <= x < y < post.len() implies lex_lt(
            #[trigger] post[x]@,
            #[trigger] post[y]@,
        ) by {
            if x < jj && y < jj {
            } else if x < jj && y == jj {
                // everything before the insertion point precedes the new cluster
            } else if x < jj && y > jj {
            } else if x == jj && y > jj {
                // the new cluster precedes the old occupant of its slot, and
                // by transitivity everything after it
                if y > jj + 1 {
                    lemma_lex_transitive(sup@, pre[jj]@, pre[y - 1]@);
                }
            } else {
            }
        }
        assert forall|s: Seq<usize>| #[trigger] seq_in(post, s) <==> (seq_in(pre, s) || s
            == sup@) by {
            if seq_in(post, s) {
                let k = choose|k: int| 0 <= k < post.len() && #[trigger] post[k]@ == s;
                if k < jj {
                    assert(pre[k]@ == s);
                } else if k == jj {
                } else {
                    assert(pre[k - 1]@ == s);
                }
            }
            if seq_in(pre, s) {
                let k = choose|k: int| 0 <= k < pre.len() && #[trigger] pre[k]@ == s;
                if k < jj {
                    assert(post[k]@ == s);
                } else {
                    assert(post[k + 1]@ == s);
                }
            }
            if s == sup@ {
                assert(post[jj]@ == s);
            }
        }
    }
}

impl Matrix {
    /// The ascending indices of the nonzero entries of row `r`.
    fn row_support_vec(&self, r: usize) -> (v: Vec<usize>)
        requires
            self.wf(),
            r < self.dim_spec(),
        ensures
            v@ == row_support(self.sview(), self.dim_spec(), r as int),
    {
        let n = self.dim();
        let mut v: Vec<usize> = Vec::new();
        let mut c: usize = 0;
        while c < n
            invariant
                self.wf(),
                n == self.dim_spec(),
                r < n,
                c <= n,
                v@ == support_upto(self.sview(), n as int, r as int, c as int),
            decreases n - c,
        {
            if self.get(r, c) != 0 {
                v.push(c);
            }
            c = c + 1;
        }
        v
    }

    /// Reads the cluster partition off a terminal matrix.
    ///
    /// Every attractor contributes the ascending indices of the nonzero
    /// entries of its row; identical clusters collapse to one, and the
    /// result is strictly sorted lexicographically by content, so it holds
    /// no duplicates and does not depend on discovery order.
    pub fn get_clusters(&self) -> (out: Vec<Vec<usize>>)
        requires
            self.wf(),
        ensures
            sorted_strict(out@),
            forall|i: int, j: int| 0 <= i < j < out@.len() ==> out@[i]@ != out@[j]@,
            forall|k: int|
                0 <= k < out@.len() ==> is_cluster_of(
                    self.sview(),
                    self.dim_spec(),
                    #[trigger] out@[k]@,
                ),
            forall|a: int|
                0 <= a < self.dim_spec() && is_attractor(self.sview(), self.dim_spec(), a)
                    ==> seq_in(out@, #[trigger] row_support(self.sview(), self.dim_spec(), a)),
    {
        let n = self.dim();
        let ghost model = self.sview();
        let ghost nn = self.dim_spec();
        let mut out: Vec<Vec<usize>> = Vec::new();
        let mut a: usize = 0;
        while a < n
            invariant
                self.wf(),
                n == self.dim_spec(),
                model == self.sview(),
                nn == n as int,
                a <= n,
                sorted_strict(out@),
                forall|k: int|
                    0 <= k < out@.len() ==> is_cluster_of(model, nn, #[trigger] out@[k]@),
                forall|b: int|
                    0 <= b < a && is_attractor(model, nn, b) ==> seq_in(
                        out@,
                        #[trigger] row_support(model, nn, b),
                    ),
            decreases n - a,
        {
            let ghost before = out@;
            if self.get(a, a) != 0 {
                let sup = self.row_support_vec(a);
                let ghost supview = sup@;
                insert_sorted(&mut out, sup);
                proof {
                    assert(is_attractor(model, nn, a as int));
                    assert(supview == row_support(model, nn, a as int));
                    assert(is_cluster_of(model, nn, supview));
                    assert forall|k: int| 0 <= k < out@.len() implies is_cluster_of(
                        model,
                        nn,
                        #[trigger] out@[k]@,
                    ) by {
                        assert(seq_in(out@, out@[k]@));
                        if out@[k]@ == supview {
                        } else {
                            assert(seq_in(before, out@[k]@));
                            let k2 = choose|k2: int|
                                0 <= k2 < before.len() && #[trigger] before[k2]@ == out@[k]@;
                            assert(is_cluster_of(model, nn, before[k2]@));
                        }
                    }
                    assert forall|b: int| 0 <= b < a + 1 && is_attractor(model, nn, b)
                        implies seq_in(out@, #[trigger] row_support(model, nn, b)) by {
                        if b < a {
                            assert(seq_in(before, row_support(model, nn, b)));
                        } else {
                            assert(seq_in(out@, supview));
                        }
                    }
                }
            }
            a = a + 1;
        }
        proof {
            assert forall|i: int, j: int| 0 <= i < j < out@.len() implies out@[i]@ != out@[j]@ by {
                lemma_lex_irreflexive(out@[i]@);
            }
        }
        out
    }
}

} // verus!
