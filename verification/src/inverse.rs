use vstd::prelude::*;
use crate::numeric::Numeric;
use crate::error::MatrixError;
use crate::matrix::{Matrix, grid_rect, grid_valid, row_valid};
use crate::row_echelon_form::{row_sub_mul_s, spec_reduced_row_echelon};

verus! {

/// The matrix widened with an identity block on its right: `[m | I]`.
pub open spec fn augment_s<K: Numeric>(m: Seq<Seq<K>>) -> Seq<Seq<K>> {
    Seq::new(
        m.len(),
        |i: int|
            Seq::new(
                2 * m.len(),
                |j: int|
                    if j < m.len() {
                        m[i][j]
                    } else if j == m.len() + i {
                        K::spec_one()
                    } else {
                        K::spec_zero()
                    },
            ),
    )
}

/// One backward step: every row above `i` loses its column-`i` entry against
/// row `i`.
pub open spec fn back_elim_s<K: Numeric>(m: Seq<Seq<K>>, i: int) -> Seq<Seq<K>> {
    Seq::new(
        m.len(),
        |k: int|
            if k < i {
                row_sub_mul_s(m[k], m[i], m[k][i])
            } else {
                m[k]
            },
    )
}

/// The backward pass over diagonal positions `i`, `i - 1`, ... down to `0`.
pub open spec fn back_pass_s<K: Numeric>(m: Seq<Seq<K>>, i: int) -> Seq<Seq<K>>
    decreases i + 1,
{
    if i < 0 {
        m
    } else {
        back_pass_s(back_elim_s(m, i), i - 1)
    }
}

/// The right block of an augmented matrix: columns `n .. 2n`.
pub open spec fn right_half_s<K: Numeric>(m: Seq<Seq<K>>, n: int) -> Seq<Seq<K>> {
    Seq::new(m.len(), |i: int| Seq::new(n as nat, |j: int| m[i][n + j]))
}

/// What `inverse` returns: the failure for a non-square matrix; the failure
/// for a zero diagonal pivot after fully reducing `[m | I]`; otherwise the
/// right block once a backward pass has cleared what the forward-leaning
/// reduction left above the unit diagonal.
pub open spec fn spec_inverse<K: Numeric>(m: Seq<Seq<K>>, cols: int) -> Result<
    Seq<Seq<K>>,
    MatrixError,
> {
    let n = m.len() as int;
    if n != cols {
        Err(MatrixError::NotSquare)
    } else {
        let aug = spec_reduced_row_echelon(augment_s(m), 2 * n);
        if exists|i: int| 0 <= i < n && #[trigger] aug[i][i] == K::spec_zero() {
            Err(MatrixError::NotInvertible)
        } else {
            Ok(right_half_s(back_pass_s(aug, n - 1), n))
        }
    }
}

impl<K: Numeric> Matrix<K> {
    /// Builds the augmented matrix `[self | I]` of shape `n` by `2n`.
    pub fn augmented_matrix(&self) -> (r: Matrix<K>)
        requires
            self.wf(),
            self@.len() == self.spec_cols(),
            self@.len() <= usize::MAX / 2,
        ensures
            r.wf(),
            r@ == augment_s(self@),
            r@.len() == self@.len(),
            r.spec_cols() == 2 * self@.len(),
    {
        let n = self.values.len();
        let ghost av = augment_s(self@);
        let mut nv: Vec<Vec<K>> = Vec::new();
        let mut i: usize = 0;
        while i < n
            invariant
                i <= n,
                n == self@.len(),
                self.wf(),
                self@.len() == self.spec_cols(),
                n <= usize::MAX / 2,
                av == augment_s(self@),
                nv@.len() == i,
                forall|t: int| 0 <= t < i ==> (#[trigger] nv@[t])@ == av[t],
            decreases n - i,
        {
            proof {
                assert(self@[i as int] == self.values@[i as int]@);
                assert(self@[i as int].len() == n);
                assert(row_valid(self@[i as int]));
            }
            let mut nr: Vec<K> = Vec::new();
            let mut j: usize = 0;
            while j < n
                invariant
                    j <= n,
                    i < n,
                    n == self@.len(),
                    self.wf(),
                    self@.len() == self.spec_cols(),
                    self@[i as int].len() == n,
                    nr@.len() == j,
                    forall|t: int| 0 <= t < j ==> nr@[t] == self@[i as int][t],
                decreases n - j,
            {
                nr.push(self.values[i][j]);
                j += 1;
            }
            let mut j2: usize = 0;
            while j2 < n
                invariant
                    j2 <= n,
                    i < n,
                    n <= usize::MAX / 2,
                    nr@.len() == n + j2,
                    forall|t: int| 0 <= t < n ==> nr@[t] == self@[i as int][t],
                    forall|t: int|
                        n <= t < n + j2 ==> nr@[t] == if t == n + i {
                            K::spec_one()
                        } else {
                            K::spec_zero()
                        },
                decreases n - j2,
            {
                if j2 == i {
                    nr.push(K::one());
                } else {
                    nr.push(K::zero());
                }
                j2 += 1;
            }
            proof {
                assert(nr@ =~= av[i as int]);
            }
            nv.push(nr);
            i += 1;
        }
        let r = Matrix { values: nv };
        proof {
            assert forall|t: int| 0 <= t < n implies r@[t] == av[t] by {
                assert(r@[t] == r.values@[t]@);
            }
            assert(r@ =~= av);
            assert forall|t: int| 0 <= t < r@.len() implies (#[trigger] r@[t]).len() == 2 * n by {
                assert(r@[t] == av[t]);
            }
            assert forall|t: int| 0 <= t < r@.len() implies row_valid(#[trigger] r@[t]) by {
                K::axiom_identities();
                assert forall|u: int| 0 <= u < r@[t].len() implies (#[trigger] r@[t][u]).valid()
                by {
                    if u < n {
                        assert(row_valid(self@[t]));
                        assert(r@[t][u] == self@[t][u]);
                    }
                }
            }
            if n > 0 {
                assert(r@[0].len() == 2 * n);
            }
        }
        r
    }

    /// Reads the inverse out of a fully reduced augmented matrix: the block
    /// of columns sitting right of the original width.
    pub fn inverse_from_augmented(source: &Matrix<K>, comparison: &Matrix<K>) -> (r: Matrix<K>)
        requires
            source.wf(),
            source@.len() == comparison@.len(),
            source.spec_cols() == 2 * comparison@.len(),
            comparison@.len() <= usize::MAX / 2,
        ensures
            r.wf(),
            r@ == right_half_s(source@, comparison@.len() as int),
            r@.len() == comparison@.len(),
            r.spec_cols() == if comparison@.len() > 0 {
                comparison@.len()
            } else {
                0
            },
    {
        let n = comparison.values.len();
        let ghost rv = right_half_s(source@, n as int);
        let mut nv: Vec<Vec<K>> = Vec::new();
        let mut i: usize = 0;
        while i < n
            invariant
                i <= n,
                n == comparison@.len(),
                n == source@.len(),
                n <= usize::MAX / 2,
                source.wf(),
                source.spec_cols() == 2 * n,
                rv == right_half_s(source@, n as int),
                nv@.len() == i,
                forall|t: int| 0 <= t < i ==> (#[trigger] nv@[t])@ == rv[t],
            decreases n - i,
        {
            proof {
                assert(source@[i as int] == source.values@[i as int]@);
                assert(source@[i as int].len() == 2 * n);
                assert(row_valid(source@[i as int]));
            }
            let mut nr: Vec<K> = Vec::new();
            let mut j: usize = 0;
            while j < n
                invariant
                    j <= n,
                    i < n,
                    n <= usize::MAX / 2,
                    n == source@.len(),
                    source.wf(),
                    source.spec_cols() == 2 * n,
                    source@[i as int].len() == 2 * n,
                    nr@.len() == j,
                    forall|t: int| 0 <= t < j ==> nr@[t] == source@[i as int][n + t],
                decreases n - j,
            {
                nr.push(source.values[i][n + j]);
                j += 1;
            }
            proof {
                assert(nr@ =~= rv[i as int]);
            }
            nv.push(nr);
            i += 1;
        }
        let r = Matrix { values: nv };
        proof {
            assert forall|t: int| 0 <= t < n implies r@[t] == rv[t] by {
                assert(r@[t] == r.values@[t]@);
            }
            assert(r@ =~= rv);
            assert forall|t: int| 0 <= t < r@.len() implies (#[trigger] r@[t]).len() == n by {
                assert(r@[t] == rv[t]);
            }
            assert forall|t: int| 0 <= t < r@.len() implies row_valid(#[trigger] r@[t]) by {
                assert forall|u: int| 0 <= u < r@[t].len() implies (#[trigger] r@[t][u]).valid()
                by {
                    assert(row_valid(source@[t]));
                    assert(r@[t][u] == source@[t][n + u]);
                }
            }
            if n > 0 {
                assert(r@[0].len() == n);
            }
        }
        r
    }

    /// The inverse by Gauss-Jordan elimination on `[self | I]`: refused for
    /// a non-square matrix, refused as singular when full reduction leaves a
    /// zero on the left diagonal, and otherwise read out of the right block
    /// after a defensive backward sweep above each unit pivot.
    pub fn inverse(&self) -> (r: Result<Matrix<K>, MatrixError>)
        requires
            self.wf(),
            self@.len() <= usize::MAX / 2,
        ensures
            spec_inverse(self@, self.spec_cols() as int) matches Err(e) ==> r == Result::<
                Matrix<K>,
                MatrixError,
            >::Err(e),
            spec_inverse(self@, self.spec_cols() as int) matches Ok(s) ==> r matches Ok(b)
                && b@ == s && b.wf() && b@.len() == self@.len(),
    {
        if !self.is_square() {
            return Err(MatrixError::NotSquare);
        }
        let n = self.values.len();
        let mut aug = self.augmented_matrix().reduced_row_echelon();
        let ghost ar = aug@;
        proof {
            assert(ar == spec_reduced_row_echelon(augment_s(self@), 2 * n));
        }
        let mut i: usize = 0;
        while i < n
            invariant
                i <= n,
                n == self@.len(),
                self.wf(),
                self@.len() == self.spec_cols(),
                ar == spec_reduced_row_echelon(augment_s(self@), 2 * n),
                aug@ == ar,
                aug.wf(),
                aug@.len() == n,
                aug.spec_cols() == 2 * n,
                forall|t: int| 0 <= t < i ==> #[trigger] ar[t][t] != K::spec_zero(),
            decreases n - i,
        {
            proof {
                assert(aug@[i as int] == aug.values@[i as int]@);
                assert(aug@[i as int].len() == 2 * n);
                assert(row_valid(aug@[i as int]));
            }
            let x = aug.values[i][i];
            if x.is_zero() {
                proof {
                    let av = spec_reduced_row_echelon(augment_s(self@), 2 * self@.len() as int);
                    assert(av == ar);
                    assert((i as int) < self@.len() && av[i as int][i as int] == K::spec_zero());
                    assert(exists|t: int|
                        0 <= t < self@.len() && #[trigger] av[t][t] == K::spec_zero());
                }
                return Err(MatrixError::NotInvertible);
            }
            i += 1;
        }
        proof {
            assert(!(exists|t: int| 0 <= t < n && #[trigger] ar[t][t] == K::spec_zero()));
        }
        // Backward sweep: from the last diagonal up, clear what is left
        // above each pivot.
        let mut ii: usize = n;
        while ii > 0
            invariant
                ii <= n,
                n == self@.len(),
                aug.wf(),
                aug@.len() == n,
                aug.spec_cols() == 2 * n,
                back_pass_s(ar, n as int - 1) == back_pass_s(aug@, ii as int - 1),
            decreases ii,
        {
            let i = ii - 1;
            let ghost mb = aug@;
            let mut j: usize = i;
            while j > 0
                invariant
                    j <= i,
                    i < n,
                    n == self@.len(),
                    aug.wf(),
                    aug@.len() == n,
                    aug.spec_cols() == 2 * n,
                    mb.len() == n,
                    grid_rect(mb, (2 * n) as nat),
                    grid_valid(mb),
                    forall|t: int| 0 <= t < j ==> aug@[t] == mb[t],
                    forall|t: int|
                        j <= t < i ==> aug@[t] == row_sub_mul_s(
                            #[trigger] mb[t],
                            mb[i as int],
                            mb[t][i as int],
                        ),
                    forall|t: int| i <= t < n ==> aug@[t] == mb[t],
                decreases j,
            {
                j -= 1;
                proof {
                    assert(aug@[j as int] == mb[j as int]);
                    assert(aug@[j as int] == aug.values@[j as int]@);
                    assert(row_valid(aug@[j as int]));
                    assert(aug@[j as int].len() == 2 * n);
                }
                let f = aug.values[j][i];
                aug.subtract_multiple_of_row(i, j, f);
            }
            proof {
                assert(aug@ =~= back_elim_s(mb, i as int));
            }
            ii -= 1;
        }
        proof {
            assert(back_pass_s(aug@, -1) == aug@);
        }
        let inv = Self::inverse_from_augmented(&aug, self);
        Ok(inv)
    }
}

} // verus!
