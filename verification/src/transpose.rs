use vstd::prelude::*;
use crate::numeric::Numeric;
use crate::matrix::{grid_rect, Matrix, row_valid};

verus! {

impl<K: Numeric> Matrix<K> {
    /// The transpose: entry `(j, i)` of the result is entry `(i, j)` of the
    /// matrix.
    pub fn transpose(&self) -> (r: Matrix<K>)
        requires
            self.wf(),
        ensures
            r.wf(),
            r@.len() == self.spec_cols(),
            grid_rect(r@, self@.len() as nat),
            forall|i: int, j: int|
                0 <= i < self@.len() && 0 <= j < self.spec_cols() ==> #[trigger] r@[j][i]
                    == self@[i][j],
    {
        let rows = self.values.len();
        let cols = self.cols();
        let mut nv: Vec<Vec<K>> = Vec::new();
        let mut j: usize = 0;
        while j < cols
            invariant
                j <= cols,
                rows == self@.len(),
                self.wf(),
                cols == self.spec_cols(),
                nv@.len() == j,
                forall|t: int| 0 <= t < j ==> (#[trigger] nv@[t])@.len() == rows,
                forall|t: int| 0 <= t < j ==> row_valid((#[trigger] nv@[t])@),
                forall|t: int, i: int|
                    0 <= t < j && 0 <= i < rows ==> #[trigger] nv@[t]@[i] == self@[i][t],
            decreases cols - j,
        {
            let mut nr: Vec<K> = Vec::new();
            let mut i: usize = 0;
            while i < rows
                invariant
                    i <= rows,
                    j < cols,
                    rows == self@.len(),
                    self.wf(),
                    cols == self.spec_cols(),
                    nr@.len() == i,
                    forall|t: int| 0 <= t < i ==> #[trigger] nr@[t] == self@[t][j as int]
                        && nr@[t].valid(),
                decreases rows - i,
            {
                proof {
                    assert(self@[i as int] == self.values@[i as int]@);
                    assert(self@[i as int].len() == cols);
                    assert(row_valid(self@[i as int]));
                }
                nr.push(self.values[i][j]);
                i += 1;
            }
            nv.push(nr);
            j += 1;
        }
        let r = Matrix { values: nv };
        proof {
            assert forall|t: int| 0 <= t < cols implies r@[t] == nv@[t]@ by {}
            assert forall|t: int| 0 <= t < r@.len() implies (#[trigger] r@[t]).len() == rows
                && row_valid(r@[t]) by {
                assert(r@[t] == nv@[t]@);
            }
            if cols > 0 {
                assert(r@[0].len() == rows);
            }
        }
        r
    }
}

} // verus!
