use vstd::prelude::*;
use crate::numeric::Numeric;
use crate::matrix::{Matrix, row_valid};
use crate::vector::{dot_s, lemma_dot_valid, Vector};

verus! {

/// Entry `(i, j)` of a matrix product, summed over the first `k` terms.
pub open spec fn mat_mul_entry_s<K: Numeric>(
    a: Seq<Seq<K>>,
    b: Seq<Seq<K>>,
    i: int,
    j: int,
    k: int,
) -> K
    decreases k,
{
    if k <= 0 {
        K::spec_zero()
    } else {
        mat_mul_entry_s(a, b, i, j, k - 1).spec_add(a[i][k - 1].spec_mul(b[k - 1][j]))
    }
}

impl<K: Numeric> Matrix<K> {
    /// The image of a vector under the matrix: each result entry is the dot
    /// product of a row with the vector.
    pub fn mul_vec(&self, vec: Vector<K>) -> (r: Vector<K>)
        requires
            self.wf(),
            vec.wf(),
            self.spec_cols() == vec@.len(),
        ensures
            r.wf(),
            r@.len() == self@.len(),
            forall|i: int|
                0 <= i < self@.len() ==> #[trigger] r@[i] == dot_s(
                    self@[i],
                    vec@,
                    self.spec_cols() as int,
                ),
    {
        let rows = self.values.len();
        let ghost cols = self.spec_cols();
        let mut nv: Vec<K> = Vec::new();
        let mut i: usize = 0;
        while i < rows
            invariant
                i <= rows,
                rows == self@.len(),
                self.wf(),
                vec.wf(),
                cols == self.spec_cols(),
                self.spec_cols() == vec@.len(),
                nv@.len() == i,
                forall|t: int|
                    0 <= t < i ==> #[trigger] nv@[t] == dot_s(self@[t], vec@, cols as int)
                        && nv@[t].valid(),
            decreases rows - i,
        {
            proof {
                assert(self@[i as int] == self.values@[i as int]@);
                assert(self@[i as int].len() == cols);
                assert(row_valid(self@[i as int]));
            }
            let row = Vector { values: Matrix::<K>::copy_row(&self.values[i]) };
            let x = row.dot(&vec);
            proof {
                lemma_dot_valid(self@[i as int], vec@, cols as int);
            }
            nv.push(x);
            i += 1;
        }
        Vector { values: nv }
    }

    /// The matrix product: entry `(i, j)` sums the products of row `i` of
    /// `self` with column `j` of `mat`.
    pub fn mul_mat(&self, mat: Matrix<K>) -> (r: Matrix<K>)
        requires
            self.wf(),
            mat.wf(),
            self.spec_cols() == mat@.len(),
        ensures
            r.wf(),
            r@.len() == self@.len(),
            r.spec_cols() == if self@.len() > 0 {
                mat.spec_cols()
            } else {
                0
            },
            forall|i: int, j: int|
                0 <= i < self@.len() && 0 <= j < mat.spec_cols() ==> #[trigger] r@[i][j]
                    == mat_mul_entry_s(self@, mat@, i, j, self.spec_cols() as int),
    {
        let rows = self.values.len();
        let inner = self.cols();
        let cols2 = mat.cols();
        let mut nv: Vec<Vec<K>> = Vec::new();
        let mut i: usize = 0;
        while i < rows
            invariant
                i <= rows,
                rows == self@.len(),
                self.wf(),
                mat.wf(),
                inner == self.spec_cols(),
                self.spec_cols() == mat@.len(),
                cols2 == mat.spec_cols(),
                nv@.len() == i,
                forall|t: int| 0 <= t < i ==> (#[trigger] nv@[t])@.len() == cols2,
                forall|t: int| 0 <= t < i ==> row_valid((#[trigger] nv@[t])@),
                forall|t: int, j: int|
                    0 <= t < i && 0 <= j < cols2 ==> #[trigger] nv@[t]@[j] == mat_mul_entry_s(
                        self@,
                        mat@,
                        t,
                        j,
                        inner as int,
                    ),
            decreases rows - i,
        {
            let mut nr: Vec<K> = Vec::new();
            let mut j: usize = 0;
            while j < cols2
                invariant
                    j <= cols2,
                    i < rows,
                    rows == self@.len(),
                    self.wf(),
                    mat.wf(),
                    inner == self.spec_cols(),
                    self.spec_cols() == mat@.len(),
                    cols2 == mat.spec_cols(),
                    nr@.len() == j,
                    forall|t: int|
                        0 <= t < j ==> #[trigger] nr@[t] == mat_mul_entry_s(
                            self@,
                            mat@,
                            i as int,
                            t,
                            inner as int,
                        ) && nr@[t].valid(),
                decreases cols2 - j,
            {
                let mut acc = K::zero();
                proof {
                    K::axiom_identities();
                }
                let mut k: usize = 0;
                while k < inner
                    invariant
                        k <= inner,
                        i < rows,
                        j < cols2,
                        rows == self@.len(),
                        self.wf(),
                        mat.wf(),
                        inner == self.spec_cols(),
                        self.spec_cols() == mat@.len(),
                        cols2 == mat.spec_cols(),
                        acc == mat_mul_entry_s(self@, mat@, i as int, j as int, k as int),
                        acc.valid(),
                    decreases inner - k,
                {
                    proof {
                        assert(self@[i as int] == self.values@[i as int]@);
                        assert(self@[i as int].len() == inner);
                        assert(row_valid(self@[i as int]));
                        assert(mat@[k as int] == mat.values@[k as int]@);
                        assert(mat@[k as int].len() == cols2);
                        assert(row_valid(mat@[k as int]));
                    }
                    let x = self.values[i][k];
                    let y = mat.values[k][j];
                    proof {
                        K::axiom_mul(x, y);
                        K::axiom_add(acc, x.spec_mul(y));
                    }
                    acc = acc.add(x.mul(y));
                    k += 1;
                }
                nr.push(acc);
                j += 1;
            }
            nv.push(nr);
            i += 1;
        }
        let r = Matrix { values: nv };
        proof {
            assert forall|t: int| 0 <= t < rows implies r@[t] == nv@[t]@ by {}
            assert forall|t: int| 0 <= t < r@.len() implies (#[trigger] r@[t]).len() == cols2
                && row_valid(r@[t]) by {
                assert(r@[t] == nv@[t]@);
            }
            if rows > 0 {
                assert(r@[0].len() == cols2);
            }
        }
        r
    }
}

} // verus!
