use vstd::prelude::*;
use crate::numeric::Numeric;
use crate::error::MatrixError;
use crate::matrix::{Matrix, grid_rect, grid_valid, row_valid, row_scale_s};

verus! {

/// A row with every entry divided by `d`; meaningful only for non-zero `d`.
pub open spec fn row_div_s<K: Numeric>(row: Seq<K>, d: K) -> Seq<K> {
    Seq::new(row.len(), |j: int| row[j].spec_div(d))
}

/// The target row with `f` times the source row subtracted, entry by entry.
pub open spec fn row_sub_mul_s<K: Numeric>(t: Seq<K>, s: Seq<K>, f: K) -> Seq<K> {
    Seq::new(t.len(), |j: int| t[j].spec_sub(f.spec_mul(s[j])))
}

/// The grid with rows `a` and `b` exchanged.
pub open spec fn swap_rows_s<K>(m: Seq<Seq<K>>, a: int, b: int) -> Seq<Seq<K>> {
    m.update(a, m[b]).update(b, m[a])
}

/// Replacing one row of a well-formed grid by a row of the right length and
/// content keeps it well-formed.
proof fn lemma_update_row_wf<K: Numeric>(m: Seq<Seq<K>>, cols: nat, i: int, nr: Seq<K>)
    requires
        grid_rect(m, cols),
        grid_valid(m),
        0 <= i < m.len(),
        nr.len() == cols,
        row_valid(nr),
    ensures
        grid_rect(m.update(i, nr), cols),
        grid_valid(m.update(i, nr)),
{
    let mu = m.update(i, nr);
    assert forall|t: int| 0 <= t < mu.len() implies (#[trigger] mu[t]).len() == cols by {
        if t != i {
            assert(mu[t] == m[t]);
        }
    }
    assert forall|t: int| 0 <= t < mu.len() implies row_valid(#[trigger] mu[t]) by {
        if t != i {
            assert(mu[t] == m[t]);
            assert(row_valid(m[t]));
        }
    }
}


/// The first row at or below `from` holding a non-zero entry in column `c`.
pub open spec fn find_pivot_s<K: Numeric>(m: Seq<Seq<K>>, c: int, from: int) -> Option<int>
    decreases m.len() - from,
{
    if from < 0 || from >= m.len() {
        None
    } else if m[from][c] != K::spec_zero() {
        Some(from)
    } else {
        find_pivot_s(m, c, from + 1)
    }
}

/// One forward elimination step: every row strictly below `r` loses its
/// column-`c` entry against the pivot row `r`, which is left unnormalized.
pub open spec fn ref_elim_s<K: Numeric>(m: Seq<Seq<K>>, r: int, c: int) -> Seq<Seq<K>> {
    Seq::new(
        m.len(),
        |k: int|
            if k <= r {
                m[k]
            } else {
                row_sub_mul_s(m[k], m[r], m[k][c].spec_div(m[r][c]))
            },
    )
}

/// Forward Gaussian elimination from pivot row `r` and column `c` on.
pub open spec fn ref_from_s<K: Numeric>(m: Seq<Seq<K>>, cols: int, r: int, c: int) -> Seq<Seq<K>>
    decreases cols - c,
{
    if r >= m.len() || c < 0 || c >= cols {
        m
    } else {
        match find_pivot_s(m, c, r) {
            None => ref_from_s(m, cols, r, c + 1),
            Some(i) => ref_from_s(ref_elim_s(swap_rows_s(m, r, i), r, c), cols, r + 1, c + 1),
        }
    }
}

/// The row echelon form of `m`: what forward elimination leaves.
pub open spec fn spec_row_echelon<K: Numeric>(m: Seq<Seq<K>>, cols: int) -> Seq<Seq<K>> {
    ref_from_s(m, cols, 0, 0)
}

/// One Gauss-Jordan step: the pivot row `r` is normalized to a unit leading
/// entry, then column `c` is cleared from every other row.
pub open spec fn rref_elim_s<K: Numeric>(m: Seq<Seq<K>>, r: int, c: int) -> Seq<Seq<K>> {
    let nr = row_div_s(m[r], m[r][c]);
    Seq::new(
        m.len(),
        |k: int|
            if k == r {
                nr
            } else {
                row_sub_mul_s(m[k], nr, m[k][c])
            },
    )
}

/// Gauss-Jordan elimination from pivot row `r` and lead column `c` on.
pub open spec fn rref_from_s<K: Numeric>(m: Seq<Seq<K>>, cols: int, r: int, c: int) -> Seq<Seq<K>>
    decreases cols - c,
{
    if r >= m.len() || c < 0 || c >= cols {
        m
    } else {
        match find_pivot_s(m, c, r) {
            None => rref_from_s(m, cols, r, c + 1),
            Some(i) => rref_from_s(rref_elim_s(swap_rows_s(m, r, i), r, c), cols, r + 1, c + 1),
        }
    }
}

/// The reduced row echelon form of `m`: what Gauss-Jordan elimination leaves.
pub open spec fn spec_reduced_row_echelon<K: Numeric>(m: Seq<Seq<K>>, cols: int) -> Seq<Seq<K>> {
    rref_from_s(m, cols, 0, 0)
}

impl<K: Numeric> Matrix<K> {
    /// A fresh copy of a row with every entry divided by the non-zero `d`.
    fn row_div(a: &Vec<K>, d: K) -> (r: Vec<K>)
        requires
            row_valid(a@),
            d.valid(),
            d != K::spec_zero(),
        ensures
            r@ == row_div_s(a@, d),
            row_valid(r@),
    {
        let mut nr: Vec<K> = Vec::new();
        let n = a.len();
        let mut j: usize = 0;
        while j < n
            invariant
                j <= n,
                n == a@.len(),
                row_valid(a@),
                d.valid(),
                d != K::spec_zero(),
                nr@.len() == j,
                forall|t: int| 0 <= t < j
                    ==> #[trigger] nr@[t] == a@[t].spec_div(d) && nr@[t].valid(),
            decreases n - j,
        {
            let x = a[j];
            proof {
                K::axiom_div(x, d);
            }
            nr.push(x.div(d));
            j += 1;
        }
        proof {
            assert(nr@ =~= row_div_s(a@, d));
        }
        nr
    }

    /// A fresh copy of the target row with `f` times the source subtracted.
    fn row_sub_mul(t: &Vec<K>, s: &Vec<K>, f: K) -> (r: Vec<K>)
        requires
            t@.len() == s@.len(),
            row_valid(t@),
            row_valid(s@),
            f.valid(),
        ensures
            r@ == row_sub_mul_s(t@, s@, f),
            row_valid(r@),
    {
        let mut nr: Vec<K> = Vec::new();
        let n = t.len();
        let mut j: usize = 0;
        while j < n
            invariant
                j <= n,
                n == t@.len(),
                t@.len() == s@.len(),
                row_valid(t@),
                row_valid(s@),
                f.valid(),
                nr@.len() == j,
                forall|u: int| 0 <= u < j
                    ==> #[trigger] nr@[u] == t@[u].spec_sub(f.spec_mul(s@[u])) && nr@[u].valid(),
            decreases n - j,
        {
            let x = t[j];
            let y = s[j];
            proof {
                K::axiom_mul(f, y);
                K::axiom_sub(x, f.spec_mul(y));
            }
            nr.push(x.sub(f.mul(y)));
            j += 1;
        }
        proof {
            assert(nr@ =~= row_sub_mul_s(t@, s@, f));
        }
        nr
    }

    /// Divides every entry of row `row` by `divisor`; a zero divisor is a
    /// defined failure and leaves the matrix unchanged.
    pub fn divide_row(&mut self, row: usize, divisor: K) -> (r: Result<(), MatrixError>)
        requires
            old(self).wf(),
            row < old(self)@.len(),
            divisor.valid(),
        ensures
            final(self).wf(),
            final(self)@.len() == old(self)@.len(),
            final(self).spec_cols() == old(self).spec_cols(),
            divisor == K::spec_zero() ==> r == Result::<(), MatrixError>::Err(
                MatrixError::DivisionByZero,
            ) && final(self)@ == old(self)@,
            divisor != K::spec_zero() ==> r is Ok && final(self)@ == old(self)@.update(
                row as int,
                row_div_s(old(self)@[row as int], divisor),
            ),
    {
        if divisor.is_zero() {
            return Err(MatrixError::DivisionByZero);
        }
        let ghost m0 = self@;
        let ghost cols = self.spec_cols();
        proof {
            assert(self@[row as int] == self.values@[row as int]@);
            assert(row_valid(self@[row as int]));
        }
        let nr = Self::row_div(&self.values[row], divisor);
        self.values[row] = nr;
        proof {
            assert forall|t: int| 0 <= t < m0.len() && t != row implies self@[t] == m0[t] by {
                assert(self@[t] == self.values@[t]@);
            }
            assert(self@[row as int] == nr@);
            assert(self@ =~= m0.update(row as int, nr@));
            lemma_update_row_wf(m0, cols, row as int, nr@);
            if m0.len() > 0 {
                assert(self@[0].len() == cols);
            }
        }
        Ok(())
    }

    /// Multiplies every entry of row `row` by `factor`; mirroring the scalar
    /// contract, a zero factor is refused like a zero divisor.
    pub fn scale_row(&mut self, row: usize, factor: K) -> (r: Result<(), MatrixError>)
        requires
            old(self).wf(),
            row < old(self)@.len(),
            factor.valid(),
        ensures
            final(self).wf(),
            final(self)@.len() == old(self)@.len(),
            final(self).spec_cols() == old(self).spec_cols(),
            factor == K::spec_zero() ==> r == Result::<(), MatrixError>::Err(
                MatrixError::DivisionByZero,
            ) && final(self)@ == old(self)@,
            factor != K::spec_zero() ==> r is Ok && final(self)@ == old(self)@.update(
                row as int,
                row_scale_s(old(self)@[row as int], factor),
            ),
    {
        if factor.is_zero() {
            return Err(MatrixError::DivisionByZero);
        }
        let ghost m0 = self@;
        let ghost cols = self.spec_cols();
        proof {
            assert(self@[row as int] == self.values@[row as int]@);
            assert(row_valid(self@[row as int]));
        }
        let nr = Self::row_scale(&self.values[row], factor);
        self.values[row] = nr;
        proof {
            assert forall|t: int| 0 <= t < m0.len() && t != row implies self@[t] == m0[t] by {
                assert(self@[t] == self.values@[t]@);
            }
            assert(self@[row as int] == nr@);
            assert(self@ =~= m0.update(row as int, nr@));
            lemma_update_row_wf(m0, cols, row as int, nr@);
            if m0.len() > 0 {
                assert(self@[0].len() == cols);
            }
        }
        Ok(())
    }

    /// Subtracts `factor` times the source row from the target row.
    pub fn subtract_multiple_of_row(&mut self, source_row: usize, target_row: usize, factor: K)
        requires
            old(self).wf(),
            source_row < old(self)@.len(),
            target_row < old(self)@.len(),
            factor.valid(),
        ensures
            final(self).wf(),
            final(self)@.len() == old(self)@.len(),
            final(self).spec_cols() == old(self).spec_cols(),
            final(self)@ == old(self)@.update(
                target_row as int,
                row_sub_mul_s(
                    old(self)@[target_row as int],
                    old(self)@[source_row as int],
                    factor,
                ),
            ),
    {
        let ghost m0 = self@;
        let ghost cols = self.spec_cols();
        proof {
            assert(self@[target_row as int] == self.values@[target_row as int]@);
            assert(self@[source_row as int] == self.values@[source_row as int]@);
            assert(row_valid(self@[target_row as int]));
            assert(row_valid(self@[source_row as int]));
        }
        let nr = Self::row_sub_mul(&self.values[target_row], &self.values[source_row], factor);
        self.values[target_row] = nr;
        proof {
            assert forall|t: int| 0 <= t < m0.len() && t != target_row implies self@[t] == m0[t]
            by {
                assert(self@[t] == self.values@[t]@);
            }
            assert(self@[target_row as int] == nr@);
            assert(self@ =~= m0.update(target_row as int, nr@));
            lemma_update_row_wf(m0, cols, target_row as int, nr@);
            if m0.len() > 0 {
                assert(self@[0].len() == cols);
            }
        }
    }


    /// The first row at or below `from` with a non-zero entry in column `c`.
    fn find_pivot(&self, c: usize, from: usize) -> (r: Option<usize>)
        requires
            self.wf(),
            c < self.spec_cols(),
            from <= self@.len(),
        ensures
            match r {
                Some(i) => from <= i < self@.len() && find_pivot_s(
                    self@,
                    c as int,
                    from as int,
                ) == Some(i as int) && self@[i as int][c as int] != K::spec_zero(),
                None => find_pivot_s(self@, c as int, from as int) is None,
            },
    {
        let rows = self.values.len();
        let mut i: usize = from;
        while i < rows
            invariant
                from <= i <= rows,
                rows == self@.len(),
                self.wf(),
                c < self.spec_cols(),
                find_pivot_s(self@, c as int, from as int) == find_pivot_s(
                    self@,
                    c as int,
                    i as int,
                ),
            decreases rows - i,
        {
            proof {
                assert(self@[i as int] == self.values@[i as int]@);
                assert(self@[i as int].len() == self.spec_cols());
                assert(row_valid(self@[i as int]));
            }
            let x = self.values[i][c];
            if !x.is_zero() {
                return Some(i);
            }
            i += 1;
        }
        None
    }

    /// Forward Gaussian elimination. For each column, the first row at or
    /// below the pivot row with a non-zero entry is swapped into pivot
    /// position and used to clear the column from every row below it; the
    /// pivot rows themselves are never normalized, so the diagonal keeps the
    /// accumulated scaling the determinant reads off.
    pub fn row_echelon(self) -> (r: Matrix<K>)
        requires
            self.wf(),
        ensures
            r.wf(),
            r@.len() == self@.len(),
            r.spec_cols() == self.spec_cols(),
            r@ == spec_row_echelon(self@, self.spec_cols() as int),
            crate::echelon_props::is_echelon_s(r@),
    {
        proof {
            crate::echelon_props::lemma_forward_is_echelon(self@, self.spec_cols() as int);
        }
        let mut m = self;
        let rows = m.values.len();
        let cols = m.cols();
        let ghost m0 = m@;
        let mut pr: usize = 0;
        let mut c: usize = 0;
        while pr < rows && c < cols
            invariant
                pr <= rows,
                c <= cols,
                m.wf(),
                m@.len() == rows,
                m.spec_cols() == cols,
                rows == m0.len(),
                ref_from_s(m0, cols as int, 0, 0) == ref_from_s(
                    m@,
                    cols as int,
                    pr as int,
                    c as int,
                ),
            decreases cols - c,
        {
            let ghost mb = m@;
            match m.find_pivot(c, pr) {
                None => {
                    c += 1;
                }
                Some(i) => {
                    m.swap_rows(pr, i);
                    let ghost ms = m@;
                    proof {
                        assert(ms == swap_rows_s(mb, pr as int, i as int));
                        assert(ms[pr as int] == mb[i as int]);
                        assert(ms[pr as int][c as int] != K::spec_zero());
                        assert(ms[pr as int] == m.values@[pr as int]@);
                    }
                    let piv = m.values[pr][c];
                    let mut k: usize = pr + 1;
                    while k < rows
                        invariant
                            pr < k <= rows,
                            pr < rows,
                            c < cols,
                            m.wf(),
                            m@.len() == rows,
                            m.spec_cols() == cols,
                            ms.len() == rows,
                            grid_rect(ms, cols as nat),
                            grid_valid(ms),
                            piv == ms[pr as int][c as int],
                            piv != K::spec_zero(),
                            piv.valid(),
                            forall|t: int| 0 <= t <= pr ==> m@[t] == ms[t],
                            forall|t: int|
                                pr < t < k ==> m@[t] == row_sub_mul_s(
                                    #[trigger] ms[t],
                                    ms[pr as int],
                                    ms[t][c as int].spec_div(piv),
                                ),
                            forall|t: int| k <= t < rows ==> m@[t] == ms[t],
                        decreases rows - k,
                    {
                        proof {
                            assert(m@[k as int] == ms[k as int]);
                            assert(m@[k as int] == m.values@[k as int]@);
                            assert(row_valid(m@[k as int]));
                            assert(m@[k as int].len() == cols);
                            K::axiom_div(m@[k as int][c as int], piv);
                        }
                        let f = m.values[k][c].div(piv);
                        m.subtract_multiple_of_row(pr, k, f);
                        k += 1;
                    }
                    proof {
                        assert(m@ =~= ref_elim_s(ms, pr as int, c as int));
                    }
                    pr += 1;
                    c += 1;
                }
            }
        }
        proof {
            assert(ref_from_s(m@, cols as int, pr as int, c as int) == m@);
        }
        m
    }

    /// Gauss-Jordan elimination. For each pivot row, the lead column is
    /// advanced until a pivot is found below, the pivot row is swapped up and
    /// normalized to a unit leading entry, and the lead column is cleared
    /// from every other row, above and below alike.
    pub fn reduced_row_echelon(self) -> (r: Matrix<K>)
        requires
            self.wf(),
        ensures
            r.wf(),
            r@.len() == self@.len(),
            r.spec_cols() == self.spec_cols(),
            r@ == spec_reduced_row_echelon(self@, self.spec_cols() as int),
            crate::echelon_props::is_rref_s(r@),
    {
        proof {
            crate::echelon_props::lemma_reduction_is_rref(self@, self.spec_cols() as int);
        }
        let mut m = self;
        let rows = m.values.len();
        let cols = m.cols();
        let ghost m0 = m@;
        let mut pr: usize = 0;
        let mut lead: usize = 0;
        while pr < rows && lead < cols
            invariant
                pr <= rows,
                lead <= cols,
                m.wf(),
                m@.len() == rows,
                m.spec_cols() == cols,
                rows == m0.len(),
                rref_from_s(m0, cols as int, 0, 0) == rref_from_s(
                    m@,
                    cols as int,
                    pr as int,
                    lead as int,
                ),
            decreases cols - lead,
        {
            let ghost mb = m@;
            match m.find_pivot(lead, pr) {
                None => {
                    lead += 1;
                }
                Some(i) => {
                    m.swap_rows(pr, i);
                    let ghost ms = m@;
                    proof {
                        assert(ms == swap_rows_s(mb, pr as int, i as int));
                        assert(ms[pr as int] == mb[i as int]);
                        assert(ms[pr as int][lead as int] != K::spec_zero());
                        assert(ms[pr as int] == m.values@[pr as int]@);
                        assert(row_valid(ms[pr as int]));
                    }
                    let piv = m.values[pr][lead];
                    let _ = m.divide_row(pr, piv);
                    let ghost mid = m@;
                    proof {
                        assert(mid == ms.update(pr as int, row_div_s(ms[pr as int], piv)));
                        assert(mid[pr as int] == row_div_s(ms[pr as int], piv));
                    }
                    let mut k: usize = 0;
                    while k < rows
                        invariant
                            k <= rows,
                            pr < rows,
                            lead < cols,
                            m.wf(),
                            m@.len() == rows,
                            m.spec_cols() == cols,
                            mid.len() == rows,
                            grid_rect(mid, cols as nat),
                            grid_valid(mid),
                            forall|t: int|
                                0 <= t < k && t != pr ==> m@[t] == row_sub_mul_s(
                                    #[trigger] mid[t],
                                    mid[pr as int],
                                    mid[t][lead as int],
                                ),
                            forall|t: int| k <= t < rows ==> m@[t] == mid[t],
                            m@[pr as int] == mid[pr as int],
                        decreases rows - k,
                    {
                        if k != pr {
                            proof {
                                assert(m@[k as int] == mid[k as int]);
                                assert(m@[k as int] == m.values@[k as int]@);
                                assert(row_valid(m@[k as int]));
                                assert(m@[k as int].len() == cols);
                            }
                            let f = m.values[k][lead];
                            m.subtract_multiple_of_row(pr, k, f);
                        }
                        k += 1;
                    }
                    proof {
                        let me = rref_elim_s(ms, pr as int, lead as int);
                        assert forall|t: int| 0 <= t < rows implies m@[t] == me[t] by {
                            if t != pr {
                                assert(mid[t] == ms[t]);
                                assert(mid[t][lead as int] == ms[t][lead as int]);
                            }
                        }
                        assert(m@ =~= me);
                    }
                    pr += 1;
                    lead += 1;
                }
            }
        }
        proof {
            assert(rref_from_s(m@, cols as int, pr as int, lead as int) == m@);
        }
        m
    }

    /// Exchanges two rows.
    pub(crate) fn swap_rows(&mut self, a: usize, b: usize)
        requires
            old(self).wf(),
            a < old(self)@.len(),
            b < old(self)@.len(),
        ensures
            final(self).wf(),
            final(self)@.len() == old(self)@.len(),
            final(self).spec_cols() == old(self).spec_cols(),
            final(self)@ == swap_rows_s(old(self)@, a as int, b as int),
    {
        let ghost m0 = self@;
        let ghost cols = self.spec_cols();
        proof {
            assert(self@[a as int] == self.values@[a as int]@);
            assert(self@[b as int] == self.values@[b as int]@);
        }
        let ra = Self::copy_row(&self.values[a]);
        let rb = Self::copy_row(&self.values[b]);
        self.values[a] = rb;
        self.values[b] = ra;
        proof {
            let mw = swap_rows_s(m0, a as int, b as int);
            assert forall|t: int| 0 <= t < m0.len() implies self@[t] == mw[t] by {
                assert(self@[t] == self.values@[t]@);
            }
            assert(self@ =~= mw);
            lemma_update_row_wf(m0, cols, a as int, m0[b as int]);
            lemma_update_row_wf(m0.update(a as int, m0[b as int]), cols, b as int, m0[a as int]);
            if m0.len() > 0 {
                assert(self@[0].len() == cols);
            }
        }
    }
}

} // verus!
