//! The dense square matrix type and its constructor, together with the
//! argmax extension trait used by pruning.

use vstd::prelude::*;
use crate::fixed::{N_MAX, RAW_LIMIT};

verus! {

/// Why an operation on a matrix failed.
#[derive(Clone, Copy, Debug, PartialEq, Eq, Structural)]
pub enum MclError {
    /// The flat buffer cannot be reshaped into a square of the stated size.
    Shape,
    /// The stated dimension is beyond the supported maximum.
    TooLarge,
    /// An entry lies outside the representable scalar range.
    Range,
}

/// Entry of a flat row-major square matrix model.
pub open spec fn ent(m: Seq<int>, n: int, r: int, c: int) -> int {
    m[r * n + c]
}

/// A flat sequence models a well-formed square matrix of dimension `n`:
/// square shape of supported size, every entry within the scalar range.
pub open spec fn wf_seq(m: Seq<int>, n: int) -> bool {
    &&& 0 <= n <= N_MAX
    &&& m.len() == n * n
    &&& forall|i: int|
        0 <= i < m.len() ==> -(RAW_LIMIT as int) <= #[trigger] m[i] <= RAW_LIMIT as int
}

/// Position of the entry `(r, c)` in the flat row-major layout.
pub proof fn lemma_flat_index(n: int, r: int, c: int)
    requires
        0 <= r < n,
        0 <= c < n,
    ensures
        0 <= r * n + c < n * n,
        (r * n + c) / n == r,
        (r * n + c) % n == c,
{
    assert(0 <= r * n + c < n * n) by (nonlinear_arith)
        requires
            0 <= r < n && 0 <= c < n,
    ;
    vstd::arithmetic::div_mod::lemma_fundamental_div_mod_converse(r * n + c, n, r, c);
}

/// Row and column of the flat position `i` in a row-major square layout.
pub proof fn lemma_flat_coords(n: int, i: int)
    requires
        0 < n,
        0 <= i < n * n,
    ensures
        0 <= i / n < n,
        0 <= i % n < n,
        i == (i / n) * n + (i % n),
{
    vstd::arithmetic::div_mod::lemma_mod_bound(i, n);
    vstd::arithmetic::div_mod::lemma_fundamental_div_mod(i, n);
    vstd::arithmetic::div_mod::lemma_div_pos_is_pos(i, n);
    vstd::arithmetic::div_mod::lemma_multiply_divide_lt(i, n, n);
    assert(n * (i / n) == (i / n) * n) by (nonlinear_arith);
}

/// A dense square matrix of fixed-point scalars, stored row-major.
pub struct Matrix {
    n: usize,
    data: Vec<i64>,
}

impl Matrix {
    /// The mathematical model: the flat row-major sequence of raw entries.
    pub closed spec fn sview(self) -> Seq<int> {
        self.data@.map_values(|x: i64| x as int)
    }

    /// The dimension, as a mathematical integer.
    pub closed spec fn dim_spec(self) -> int {
        self.n as int
    }

    /// Well-formedness: the shape is square and every entry is in range.
    pub open spec fn wf(self) -> bool {
        wf_seq(self.sview(), self.dim_spec())
    }

    /// Entry of the model at row `r`, column `c`.
    pub open spec fn entry(self, r: int, c: int) -> int {
        ent(self.sview(), self.dim_spec(), r, c)
    }

    /// The dimension N of this N-by-N matrix.
    pub fn dim(&self) -> (n: usize)
        ensures
            n == self.dim_spec(),
    {
        self.n
    }

    /// Builds an N-by-N matrix from a flat row-major buffer of raw scalars.
    ///
    /// Construction fails, rather than producing a partially built matrix,
    /// when the dimension is beyond the supported maximum, when the buffer
    /// cannot be reshaped into an N-by-N square, or when an entry lies
    /// outside the representable scalar range.
    pub fn from_raw(n: usize, data: Vec<i64>) -> (res: Result<Matrix, MclError>)
        ensures
            res is Ok <==> (n <= N_MAX && data@.len() == n * n && forall|i: int|
                0 <= i < data@.len() ==> -(RAW_LIMIT as int) <= #[trigger] (data@[i] as int)
                    <= RAW_LIMIT as int),
            res matches Err(MclError::TooLarge) <==> n > N_MAX,
            res matches Err(MclError::Shape) <==> n <= N_MAX && data@.len() != n * n,
            res matches Err(MclError::Range) <==> n <= N_MAX && data@.len() == n * n && exists|i:
                int|
                0 <= i < data@.len() && !(-(RAW_LIMIT as int) <= #[trigger] (data@[i] as int)
                    <= RAW_LIMIT as int),
            res matches Ok(m) ==> {
                &&& m.wf()
                &&& m.dim_spec() == n
                &&& m.sview() == data@.map_values(|x: i64| x as int)
            },
    {
        if n > N_MAX {
            return Err(MclError::TooLarge);
        }
        assert(n * n <= 100_000_000) by (nonlinear_arith)
            requires
                0 <= n <= 10_000,
        ;
        if data.len() != n * n {
            return Err(MclError::Shape);
        }
        let mut i: usize = 0;
        while i < data.len()
            invariant
                n <= N_MAX,
                data@.len() == n * n,
                i <= data@.len(),
                forall|j: int|
                    0 <= j < i ==> -(RAW_LIMIT as int) <= #[trigger] (data@[j] as int)
                        <= RAW_LIMIT as int,
            decreases data@.len() - i,
        {
            if data[i] < -RAW_LIMIT || data[i] > RAW_LIMIT {
                return Err(MclError::Range);
            }
            i = i + 1;
        }
        let m = Matrix { n, data };
        assert(m.sview().len() == m.data@.len());
        assert(forall|j: int|
            0 <= j < m.sview().len() ==> m.sview()[j] == #[trigger] (m.data@[j] as int));
        Ok(m)
    }

    /// Builds a matrix from a flat buffer already known to be well shaped
    /// and in range.
    pub(crate) fn from_vec(n: usize, data: Vec<i64>) -> (m: Matrix)
        requires
            n <= N_MAX,
            data@.len() == n * n,
            forall|i: int|
                0 <= i < data@.len() ==> -(RAW_LIMIT as int) <= #[trigger] (data@[i] as int)
                    <= RAW_LIMIT as int,
        ensures
            m.wf(),
            m.dim_spec() == n,
            m.sview() == data@.map_values(|x: i64| x as int),
    {
        let m = Matrix { n, data };
        assert(forall|j: int|
            0 <= j < m.sview().len() ==> m.sview()[j] == #[trigger] (m.data@[j] as int));
        m
    }

    /// An owned duplicate of this matrix: same dimension, same entries.
    pub fn copy_of(&self) -> (m: Matrix)
        ensures
            m.dim_spec() == self.dim_spec(),
            m.sview() == self.sview(),
    {
        let data = self.data.clone();
        assert(data@ =~= self.data@);
        Matrix { n: self.n, data }
    }

    /// Raw entry at row `r`, column `c`.
    pub fn get(&self, r: usize, c: usize) -> (v: i64)
        requires
            self.wf(),
            r < self.dim_spec(),
            c < self.dim_spec(),
        ensures
            v == self.entry(r as int, c as int),
    {
        proof {
            lemma_flat_index(self.dim_spec(), r as int, c as int);
            assert(self.dim_spec() * self.dim_spec() <= 100_000_000) by (nonlinear_arith)
                requires
                    0 <= self.dim_spec() <= 10_000,
            ;
        }
        self.data[r * self.n + c]
    }

    /// Overwrites the raw entry at row `r`, column `c`.
    pub(crate) fn set_entry(&mut self, r: usize, c: usize, v: i64)
        requires
            old(self).wf(),
            r < old(self).dim_spec(),
            c < old(self).dim_spec(),
            -RAW_LIMIT <= v <= RAW_LIMIT,
        ensures
            final(self).wf(),
            final(self).dim_spec() == old(self).dim_spec(),
            final(self).sview() == old(self).sview().update(
                r * old(self).dim_spec() + c,
                v as int,
            ),
    {
        proof {
            lemma_flat_index(self.dim_spec(), r as int, c as int);
            assert(self.dim_spec() * self.dim_spec() <= 100_000_000) by (nonlinear_arith)
                requires
                    0 <= self.dim_spec() <= 10_000,
            ;
        }
        let i: usize = r * self.n + c;
        self.data.set(i, v);
        assert(self.sview() =~= old(self).sview().update(i as int, v as int));
    }
}

/// First index holding the maximal element: every element is at most the one
/// there, and every earlier element is strictly below it.
pub open spec fn is_first_max(s: Seq<int>, i: int) -> bool {
    &&& 0 <= i < s.len()
    &&& forall|j: int| 0 <= j < s.len() ==> #[trigger] s[j] <= s[i]
    &&& forall|j: int| 0 <= j < i ==> #[trigger] s[j] < s[i]
}

/// Search for the position of the largest element of a collection.
pub trait PartiqlArgMaxExt {
    /// The sequence of values the search runs over.
    spec fn amax_view(&self) -> Seq<int>;

    /// Index of the first occurrence of the maximal element.
    fn argmax(&self) -> (r: Result<usize, MclError>)
        requires
            self.amax_view().len() > 0,
        ensures
            r matches Ok(i) && is_first_max(self.amax_view(), i as int),
    ;
}

impl PartiqlArgMaxExt for Vec<i64> {
    open spec fn amax_view(&self) -> Seq<int> {
        self@.map_values(|x: i64| x as int)
    }

    fn argmax(&self) -> (r: Result<usize, MclError>) {
        let mut best: usize = 0;
        let mut i: usize = 1;
        while i < self.len()
            invariant
                self.amax_view().len() == self@.len(),
                forall|j: int| 0 <= j < self@.len() ==> self.amax_view()[j] == #[trigger] (
                self@[j] as int),
                1 <= i <= self@.len(),
                best < i,
                forall|j: int| 0 <= j < i ==> #[trigger] (self@[j] as int) <= self@[best as int],
                forall|j: int| 0 <= j < best ==> #[trigger] (self@[j] as int) < self@[
                    best as int],
            decreases self@.len() - i,
        {
            if self[i] > self[best] {
                best = i;
            }
            i = i + 1;
        }
        Ok(best)
    }
}

} // verus!
