use vstd::prelude::*;
use crate::numeric::Numeric;
use crate::matrix::Matrix;
use crate::matrix::row_valid;
use crate::row_echelon_form::spec_reduced_row_echelon;

verus! {

/// Whether a row holds at least one non-zero entry.
pub open spec fn row_nonzero_s<K: Numeric>(r: Seq<K>) -> bool {
    exists|j: int| 0 <= j < r.len() && r[j] != K::spec_zero()
}

/// How many of the first `k` rows hold a non-zero entry.
pub open spec fn count_nonzero_rows_s<K: Numeric>(m: Seq<Seq<K>>, k: int) -> int
    decreases k,
{
    if k <= 0 {
        0
    } else {
        count_nonzero_rows_s(m, k - 1) + if row_nonzero_s(m[k - 1]) {
            1int
        } else {
            0int
        }
    }
}

/// What `rank` returns: the number of non-zero rows left by full reduction.
pub open spec fn spec_rank<K: Numeric>(m: Seq<Seq<K>>, cols: int) -> int {
    count_nonzero_rows_s(spec_reduced_row_echelon(m, cols), m.len() as int)
}

impl<K: Numeric> Matrix<K> {
    /// Whether row `i` holds a non-zero entry.
    fn row_has_nonzero(&self, i: usize) -> (r: bool)
        requires
            self.wf(),
            i < self@.len(),
        ensures
            r == row_nonzero_s(self@[i as int]),
    {
        let cols = self.cols();
        proof {
            assert(self@[i as int] == self.values@[i as int]@);
            assert(self@[i as int].len() == cols);
            assert(row_valid(self@[i as int]));
        }
        let mut j: usize = 0;
        while j < cols
            invariant
                j <= cols,
                self.wf(),
                i < self@.len(),
                cols == self.spec_cols(),
                self@[i as int].len() == cols,
                forall|t: int| 0 <= t < j ==> self@[i as int][t] == K::spec_zero(),
            decreases cols - j,
        {
            let x = self.values[i][j];
            if !x.is_zero() {
                return true;
            }
            j += 1;
        }
        false
    }

    /// The rank: reduce fully, then count the rows that kept a non-zero
    /// entry; the zero rows that elimination leaves sit below them.
    pub fn rank(&self) -> (r: usize)
        requires
            self.wf(),
        ensures
            r == spec_rank(self@, self.spec_cols() as int),
            r <= self@.len(),
    {
        let m = self.clone().reduced_row_echelon();
        let n = m.values.len();
        let ghost rv = m@;
        let mut count: usize = 0;
        let mut i: usize = 0;
        while i < n
            invariant
                i <= n,
                n == rv.len(),
                m@ == rv,
                m.wf(),
                count <= i,
                count == count_nonzero_rows_s(rv, i as int),
            decreases n - i,
        {
            if m.row_has_nonzero(i) {
                count += 1;
            }
            i += 1;
        }
        count
    }
}

} // verus!
