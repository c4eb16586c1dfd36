use vstd::prelude::*;
use crate::numeric::Numeric;
use crate::error::MatrixError;
use crate::matrix::Matrix;
use crate::row_echelon_form::spec_row_echelon;

verus! {

/// The product of the first `k` diagonal entries, taken left to right.
pub open spec fn diag_prod_s<K: Numeric>(m: Seq<Seq<K>>, k: int) -> K
    decreases k,
{
    if k <= 0 {
        K::spec_one()
    } else {
        diag_prod_s(m, k - 1).spec_mul(m[k - 1][k - 1])
    }
}

/// What `determinant` returns: for a square matrix, the product of the
/// diagonal of its unnormalized row echelon form; the failure otherwise.
pub open spec fn spec_determinant<K: Numeric>(m: Seq<Seq<K>>, cols: int) -> Result<
    K,
    MatrixError,
> {
    if m.len() != cols {
        Err(MatrixError::NotSquare)
    } else {
        Ok(diag_prod_s(spec_row_echelon(m, cols), m.len() as int))
    }
}

impl<K: Numeric> Matrix<K> {
    /// The determinant, read off as the product of the diagonal after
    /// forward elimination. The echelon pass never normalizes a pivot, so
    /// the diagonal already carries the accumulated scaling.
    pub fn determinant(&self) -> (r: Result<K, MatrixError>)
        requires
            self.wf(),
        ensures
            r == spec_determinant(self@, self.spec_cols() as int),
            r matches Ok(d) ==> d.valid(),
    {
        if !self.is_square() {
            return Err(MatrixError::NotSquare);
        }
        let n = self.values.len();
        let re = self.clone().row_echelon();
        let ghost rv = re@;
        let mut acc = K::one();
        proof {
            K::axiom_identities();
        }
        let mut i: usize = 0;
        while i < n
            invariant
                i <= n,
                n == rv.len(),
                re@ == rv,
                re.wf(),
                re.spec_cols() == n,
                acc == diag_prod_s(rv, i as int),
                acc.valid(),
            decreases n - i,
        {
            proof {
                assert(re@[i as int] == re.values@[i as int]@);
                assert(re@[i as int].len() == n);
                assert(crate::matrix::row_valid(re@[i as int]));
                K::axiom_mul(acc, rv[i as int][i as int]);
            }
            let x = re.values[i][i];
            acc = acc.mul(x);
            i += 1;
        }
        Ok(acc)
    }
}

} // verus!
