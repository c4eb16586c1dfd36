use vstd::prelude::*;
use crate::numeric::Numeric;
use crate::error::MatrixError;

verus! {

/// Every entry of the row is a scalar.
pub open spec fn row_valid<K: Numeric>(r: Seq<K>) -> bool {
    forall|j: int| 0 <= j < r.len() ==> (#[trigger] r[j]).valid()
}

/// Every row of the grid has length `cols`.
pub open spec fn grid_rect<K>(m: Seq<Seq<K>>, cols: nat) -> bool {
    forall|i: int| 0 <= i < m.len() ==> (#[trigger] m[i]).len() == cols
}

/// Every entry of the grid is a scalar.
pub open spec fn grid_valid<K: Numeric>(m: Seq<Seq<K>>) -> bool {
    forall|i: int| 0 <= i < m.len() ==> row_valid(#[trigger] m[i])
}

/// The entry-wise sum of two rows of one length.
pub open spec fn row_add_s<K: Numeric>(a: Seq<K>, b: Seq<K>) -> Seq<K> {
    Seq::new(a.len(), |j: int| a[j].spec_add(b[j]))
}

/// The entry-wise difference of two rows of one length.
pub open spec fn row_sub_s<K: Numeric>(a: Seq<K>, b: Seq<K>) -> Seq<K> {
    Seq::new(a.len(), |j: int| a[j].spec_sub(b[j]))
}

/// A row with every entry multiplied by `f`.
pub open spec fn row_scale_s<K: Numeric>(a: Seq<K>, f: K) -> Seq<K> {
    Seq::new(a.len(), |j: int| a[j].spec_mul(f))
}

/// An owned, mutable, rectangular grid of scalars: a sequence of rows, each
/// an ordered sequence of entries of one shared length.
#[derive(Debug, PartialEq)]
pub struct Matrix<K: Numeric> {
    pub values: Vec<Vec<K>>,
}

impl<K: Numeric> View for Matrix<K> {
    type V = Seq<Seq<K>>;

    open spec fn view(&self) -> Seq<Seq<K>> {
        Seq::new(self.values@.len(), |i: int| self.values@[i]@)
    }
}


impl<K: Numeric> Clone for Matrix<K> {
    /// A deep copy holding the same entries.
    fn clone(&self) -> (r: Self)
        ensures
            r@ == self@,
    {
        let mut nv: Vec<Vec<K>> = Vec::new();
        let n = self.values.len();
        let mut i: usize = 0;
        while i < n
            invariant
                i <= n,
                n == self.values@.len(),
                nv@.len() == i,
                forall|t: int| 0 <= t < i ==> (#[trigger] nv@[t])@ == self.values@[t]@,
            decreases n - i,
        {
            let nr = Self::copy_row(&self.values[i]);
            nv.push(nr);
            i += 1;
        }
        let r = Matrix { values: nv };
        proof {
            assert forall|t: int| 0 <= t < n implies r@[t] == self@[t] by {
                assert(r@[t] == r.values@[t]@);
                assert(self@[t] == self.values@[t]@);
            }
            assert(r@ =~= self@);
        }
        r
    }
}

impl<K: Numeric> Matrix<K> {
    /// The number of columns: the length shared by the rows, or zero where
    /// there is no row.
    pub open spec fn spec_cols(self) -> nat {
        if self@.len() > 0 {
            self@[0].len()
        } else {
            0
        }
    }

    /// The invariant of the container: rectangular, and filled with scalars.
    pub open spec fn wf(self) -> bool {
        grid_rect(self@, self.spec_cols()) && grid_valid(self@)
    }

    /// A fresh row holding the same entries as `a`.
    pub(crate) fn copy_row(a: &Vec<K>) -> (r: Vec<K>)
        ensures
            r@ == a@,
    {
        let mut nr: Vec<K> = Vec::new();
        let n = a.len();
        let mut j: usize = 0;
        while j < n
            invariant
                j <= n,
                n == a@.len(),
                nr@ == a@.subrange(0, j as int),
            decreases n - j,
        {
            nr.push(a[j]);
            j += 1;
        }
        proof {
            assert(nr@ =~= a@);
        }
        nr
    }

    /// The entry-wise sum of two rows.
    pub(crate) fn row_add(a: &Vec<K>, b: &Vec<K>) -> (r: Vec<K>)
        requires
            a@.len() == b@.len(),
            row_valid(a@),
            row_valid(b@),
        ensures
            r@ == row_add_s(a@, b@),
            row_valid(r@),
    {
        let mut nr: Vec<K> = Vec::new();
        let n = a.len();
        let mut j: usize = 0;
        while j < n
            invariant
                j <= n,
                n == a@.len(),
                a@.len() == b@.len(),
                row_valid(a@),
                row_valid(b@),
                nr@.len() == j,
                forall|t: int| 0 <= t < j
                    ==> #[trigger] nr@[t] == a@[t].spec_add(b@[t]) && nr@[t].valid(),
            decreases n - j,
        {
            let x = a[j];
            let y = b[j];
            proof {
                K::axiom_add(x, y);
            }
            nr.push(x.add(y));
            j += 1;
        }
        proof {
            assert(nr@ =~= row_add_s(a@, b@));
        }
        nr
    }

    /// The entry-wise difference of two rows.
    pub(crate) fn row_sub(a: &Vec<K>, b: &Vec<K>) -> (r: Vec<K>)
        requires
            a@.len() == b@.len(),
            row_valid(a@),
            row_valid(b@),
        ensures
            r@ == row_sub_s(a@, b@),
            row_valid(r@),
    {
        let mut nr: Vec<K> = Vec::new();
        let n = a.len();
        let mut j: usize = 0;
        while j < n
            invariant
                j <= n,
                n == a@.len(),
                a@.len() == b@.len(),
                row_valid(a@),
                row_valid(b@),
                nr@.len() == j,
                forall|t: int| 0 <= t < j
                    ==> #[trigger] nr@[t] == a@[t].spec_sub(b@[t]) && nr@[t].valid(),
            decreases n - j,
        {
            let x = a[j];
            let y = b[j];
            proof {
                K::axiom_sub(x, y);
            }
            nr.push(x.sub(y));
            j += 1;
        }
        proof {
            assert(nr@ =~= row_sub_s(a@, b@));
        }
        nr
    }

    /// A row with every entry multiplied by `f`.
    pub(crate) fn row_scale(a: &Vec<K>, f: K) -> (r: Vec<K>)
        requires
            row_valid(a@),
            f.valid(),
        ensures
            r@ == row_scale_s(a@, f),
            row_valid(r@),
    {
        let mut nr: Vec<K> = Vec::new();
        let n = a.len();
        let mut j: usize = 0;
        while j < n
            invariant
                j <= n,
                n == a@.len(),
                row_valid(a@),
                f.valid(),
                nr@.len() == j,
                forall|t: int| 0 <= t < j
                    ==> #[trigger] nr@[t] == a@[t].spec_mul(f) && nr@[t].valid(),
            decreases n - j,
        {
            let x = a[j];
            proof {
                K::axiom_mul(x, f);
            }
            nr.push(x.mul(f));
            j += 1;
        }
        proof {
            assert(nr@ =~= row_scale_s(a@, f));
        }
        nr
    }

    /// Builds a matrix from rows, refusing rows of unequal length.
    pub fn from(values: Vec<Vec<K>>) -> (r: Result<Matrix<K>, MatrixError>)
        ensures
            r is Ok <==> (forall|i: int|
                0 <= i < values@.len() ==> (#[trigger] values@[i])@.len() == values@[0]@.len()),
            r is Err ==> r == Result::<Matrix<K>, MatrixError>::Err(MatrixError::RaggedRows),
            r matches Ok(m) ==> m@ == Seq::new(values@.len(), |i: int| values@[i]@),
            r matches Ok(m) ==> grid_rect(m@, m.spec_cols()) && m@.len() == values@.len(),
            r matches Ok(m) ==> (grid_valid(m@) ==> m.wf()),
    {
        let n = values.len();
        if n == 0 {
            let m = Matrix { values };
            proof {
                assert(m@ =~= Seq::new(m.values@.len(), |i: int| m.values@[i]@));
            }
            return Ok(m);
        }
        let c0 = values[0].len();
        let mut i: usize = 1;
        while i < n
            invariant
                1 <= i <= n,
                n == values@.len(),
                c0 == values@[0]@.len(),
                forall|t: int| 0 <= t < i ==> (#[trigger] values@[t])@.len() == c0,
            decreases n - i,
        {
            if values[i].len() != c0 {
                return Err(MatrixError::RaggedRows);
            }
            i += 1;
        }
        let m = Matrix { values };
        Ok(m)
    }

    /// How many rows the matrix has.
    pub fn rows(&self) -> (r: usize)
        ensures
            r == self@.len(),
    {
        self.values.len()
    }

    /// How many columns the matrix has.
    pub fn cols(&self) -> (r: usize)
        ensures
            r == self.spec_cols(),
    {
        if self.values.len() == 0 {
            0
        } else {
            self.values[0].len()
        }
    }

    /// Whether the matrix has as many rows as columns.
    pub fn is_square(&self) -> (r: bool)
        ensures
            r == (self@.len() == self.spec_cols()),
    {
        self.rows() == self.cols()
    }

    /// Entry-wise sum: adds `v` onto `self`.
    pub fn add(&mut self, v: &Matrix<K>)
        requires
            old(self).wf(),
            v.wf(),
            old(self)@.len() == v@.len(),
            old(self).spec_cols() == v.spec_cols(),
        ensures
            final(self).wf(),
            final(self)@.len() == old(self)@.len(),
            final(self).spec_cols() == old(self).spec_cols(),
            forall|i: int| 0 <= i < old(self)@.len()
                ==> final(self)@[i] == row_add_s(#[trigger] old(self)@[i], v@[i]),
    {
        let rows = self.values.len();
        let ghost m0 = self@;
        let ghost cols = self.spec_cols();
        let mut i: usize = 0;
        while i < rows
            invariant
                i <= rows,
                rows == self@.len(),
                m0.len() == rows,
                v@.len() == rows,
                grid_rect(m0, cols),
                grid_rect(v@, cols),
                grid_rect(self@, cols),
                grid_valid(m0),
                grid_valid(v@),
                grid_valid(self@),
                forall|t: int| i <= t < rows ==> self@[t] == m0[t],
                forall|t: int| 0 <= t < i ==> self@[t] == row_add_s(#[trigger] m0[t], v@[t]),
            decreases rows - i,
        {
            proof {
                assert(self@[i as int] == self.values@[i as int]@);
                assert(v@[i as int] == v.values@[i as int]@);
                assert(self@[i as int].len() == cols);
                assert(v@[i as int].len() == cols);
                assert(row_valid(self@[i as int]));
                assert(row_valid(v@[i as int]));
            }
            let ghost prev = self@;
            let nr = Self::row_add(&self.values[i], &v.values[i]);
            self.values[i] = nr;
            proof {
                assert forall|t: int| 0 <= t < rows && t != i implies self@[t] == prev[t] by {
                    assert(self@[t] == self.values@[t]@);
                }
                assert(self@[i as int] == nr@);
                assert forall|t: int| 0 <= t < rows implies (#[trigger] self@[t]).len() == cols by {
                    if t != i {
                        assert(self@[t] == prev[t]);
                        assert(prev[t].len() == cols);
                    }
                }
                assert forall|t: int| 0 <= t < rows implies row_valid(#[trigger] self@[t]) by {
                    if t != i {
                        assert(self@[t] == prev[t]);
                        assert(row_valid(prev[t]));
                    }
                }
            }
            i += 1;
        }
        proof {
            if rows > 0 {
                assert(self@[0].len() == cols);
            }
        }
    }

    /// Entry-wise difference: subtracts `v` from `self`.
    pub fn sub(&mut self, v: &Matrix<K>)
        requires
            old(self).wf(),
            v.wf(),
            old(self)@.len() == v@.len(),
            old(self).spec_cols() == v.spec_cols(),
        ensures
            final(self).wf(),
            final(self)@.len() == old(self)@.len(),
            final(self).spec_cols() == old(self).spec_cols(),
            forall|i: int| 0 <= i < old(self)@.len()
                ==> final(self)@[i] == row_sub_s(#[trigger] old(self)@[i], v@[i]),
    {
        let rows = self.values.len();
        let ghost m0 = self@;
        let ghost cols = self.spec_cols();
        let mut i: usize = 0;
        while i < rows
            invariant
                i <= rows,
                rows == self@.len(),
                m0.len() == rows,
                v@.len() == rows,
                grid_rect(m0, cols),
                grid_rect(v@, cols),
                grid_rect(self@, cols),
                grid_valid(m0),
                grid_valid(v@),
                grid_valid(self@),
                forall|t: int| i <= t < rows ==> self@[t] == m0[t],
                forall|t: int| 0 <= t < i ==> self@[t] == row_sub_s(#[trigger] m0[t], v@[t]),
            decreases rows - i,
        {
            proof {
                assert(self@[i as int] == self.values@[i as int]@);
                assert(v@[i as int] == v.values@[i as int]@);
                assert(self@[i as int].len() == cols);
                assert(v@[i as int].len() == cols);
                assert(row_valid(self@[i as int]));
                assert(row_valid(v@[i as int]));
            }
            let ghost prev = self@;
            let nr = Self::row_sub(&self.values[i], &v.values[i]);
            self.values[i] = nr;
            proof {
                assert forall|t: int| 0 <= t < rows && t != i implies self@[t] == prev[t] by {
                    assert(self@[t] == self.values@[t]@);
                }
                assert(self@[i as int] == nr@);
                assert forall|t: int| 0 <= t < rows implies (#[trigger] self@[t]).len() == cols by {
                    if t != i {
                        assert(self@[t] == prev[t]);
                        assert(prev[t].len() == cols);
                    }
                }
                assert forall|t: int| 0 <= t < rows implies row_valid(#[trigger] self@[t]) by {
                    if t != i {
                        assert(self@[t] == prev[t]);
                        assert(row_valid(prev[t]));
                    }
                }
            }
            i += 1;
        }
        proof {
            if rows > 0 {
                assert(self@[0].len() == cols);
            }
        }
    }

    /// Entry-wise scaling by `a`.
    pub fn scl(&mut self, a: K)
        requires
            old(self).wf(),
            a.valid(),
        ensures
            final(self).wf(),
            final(self)@.len() == old(self)@.len(),
            final(self).spec_cols() == old(self).spec_cols(),
            forall|i: int| 0 <= i < old(self)@.len()
                ==> final(self)@[i] == row_scale_s(#[trigger] old(self)@[i], a),
    {
        let rows = self.values.len();
        let ghost m0 = self@;
        let ghost cols = self.spec_cols();
        let mut i: usize = 0;
        while i < rows
            invariant
                i <= rows,
                rows == self@.len(),
                m0.len() == rows,
                a.valid(),
                grid_rect(m0, cols),
                grid_rect(self@, cols),
                grid_valid(m0),
                grid_valid(self@),
                forall|t: int| i <= t < rows ==> self@[t] == m0[t],
                forall|t: int| 0 <= t < i ==> self@[t] == row_scale_s(#[trigger] m0[t], a),
            decreases rows - i,
        {
            proof {
                assert(self@[i as int] == self.values@[i as int]@);
                assert(self@[i as int].len() == cols);
                assert(row_valid(self@[i as int]));
            }
            let ghost prev = self@;
            let nr = Self::row_scale(&self.values[i], a);
            self.values[i] = nr;
            proof {
                assert forall|t: int| 0 <= t < rows && t != i implies self@[t] == prev[t] by {
                    assert(self@[t] == self.values@[t]@);
                }
                assert(self@[i as int] == nr@);
                assert forall|t: int| 0 <= t < rows implies (#[trigger] self@[t]).len() == cols by {
                    if t != i {
                        assert(self@[t] == prev[t]);
                        assert(prev[t].len() == cols);
                    }
                }
                assert forall|t: int| 0 <= t < rows implies row_valid(#[trigger] self@[t]) by {
                    if t != i {
                        assert(self@[t] == prev[t]);
                        assert(row_valid(prev[t]));
                    }
                }
            }
            i += 1;
        }
        proof {
            if rows > 0 {
                assert(self@[0].len() == cols);
            }
        }
    }
}

} // verus!
