use vstd::prelude::*;
use crate::numeric::Numeric;
use crate::matrix::{Matrix, row_valid};

verus! {

/// The sum of the first `k` diagonal entries, taken left to right.
pub open spec fn trace_s<K: Numeric>(m: Seq<Seq<K>>, k: int) -> K
    decreases k,
{
    if k <= 0 {
        K::spec_zero()
    } else {
        trace_s(m, k - 1).spec_add(m[k - 1][k - 1])
    }
}

impl<K: Numeric> Matrix<K> {
    /// The trace of a square matrix: the sum of its diagonal.
    pub fn trace(&self) -> (r: K)
        requires
            self.wf(),
            self@.len() == self.spec_cols(),
        ensures
            r == trace_s(self@, self@.len() as int),
            r.valid(),
    {
        let n = self.values.len();
        let mut acc = K::zero();
        proof {
            K::axiom_identities();
        }
        let mut i: usize = 0;
        while i < n
            invariant
                i <= n,
                n == self@.len(),
                self.wf(),
                self@.len() == self.spec_cols(),
                acc == trace_s(self@, i as int),
                acc.valid(),
            decreases n - i,
        {
            proof {
                assert(self@[i as int] == self.values@[i as int]@);
                assert(self@[i as int].len() == n);
                assert(row_valid(self@[i as int]));
            }
            let x = self.values[i][i];
            proof {
                K::axiom_add(acc, x);
            }
            acc = acc.add(x);
            i += 1;
        }
        acc
    }
}

} // verus!
