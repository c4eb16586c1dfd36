use vstd::prelude::*;
use crate::numeric::Numeric;
use crate::matrix::{grid_rect, grid_valid, row_scale_s, row_valid};
use crate::field::{lemma_div_one, lemma_div_self, lemma_mul_cancel, lemma_mul_integral,
    lemma_mul_zero, lemma_sub_mul_distrib, lemma_sub_mul_one, lemma_sub_mul_zero, lemma_sub_self,
    lemma_sub_zero, lemma_zero_div};
use crate::row_echelon_form::{find_pivot_s, ref_elim_s, ref_from_s, row_div_s, row_sub_mul_s,
    rref_elim_s, rref_from_s, spec_reduced_row_echelon, spec_row_echelon, swap_rows_s};
use crate::determinant::{diag_prod_s, spec_determinant};
use crate::rank::{count_nonzero_rows_s, row_nonzero_s, spec_rank};
use crate::inverse::{augment_s, back_elim_s, back_pass_s, right_half_s, spec_inverse};
use crate::error::MatrixError;

verus! {

// The shapes that reduction promises: leading entries, echelon form, and
// reduced echelon form, as predicates on the mathematical grid.

/// A row of nothing but the additive identity.
pub open spec fn is_zero_row_s<K: Numeric>(r: Seq<K>) -> bool {
    forall|j: int| 0 <= j < r.len() ==> r[j] == K::spec_zero()
}

/// The first index at or after `j` holding a non-zero entry, or the row
/// length where there is none.
pub open spec fn lead_of_s<K: Numeric>(r: Seq<K>, j: int) -> int
    decreases r.len() - j,
{
    if j < 0 || j >= r.len() {
        r.len() as int
    } else if r[j] != K::spec_zero() {
        j
    } else {
        lead_of_s(r, j + 1)
    }
}

/// The column of the leading (first non-zero) entry of a row.
pub open spec fn lead_s<K: Numeric>(r: Seq<K>) -> int {
    lead_of_s(r, 0)
}

/// What the leading-entry search returns: it sits between `j` and the row
/// length, everything before it from `j` on is zero, and it lands on a
/// non-zero entry unless it ran off the row.
pub proof fn lemma_lead_of_bounds<K: Numeric>(r: Seq<K>, j: int)
    requires
        0 <= j <= r.len(),
    ensures
        j <= lead_of_s(r, j) <= r.len(),
        forall|t: int| j <= t < lead_of_s(r, j) ==> r[t] == K::spec_zero(),
        lead_of_s(r, j) < r.len() ==> r[lead_of_s(r, j)] != K::spec_zero(),
    decreases r.len() - j,
{
    if j < r.len() && r[j] == K::spec_zero() {
        lemma_lead_of_bounds(r, j + 1);
    }
}

/// A row is zero exactly when its leading-entry search runs off the end.
pub proof fn lemma_lead_zero_row<K: Numeric>(r: Seq<K>)
    ensures
        is_zero_row_s(r) <==> lead_s(r) == r.len(),
{
    lemma_lead_of_bounds(r, 0);
}

/// Two rows that agree up to some column past the leading entry of the
/// first have the same leading entry.
pub proof fn lemma_lead_of_agree<K: Numeric>(r1: Seq<K>, r2: Seq<K>, j: int, c: int)
    requires
        r1.len() == r2.len(),
        0 <= j <= c <= r1.len(),
        forall|t: int| j <= t < c ==> r1[t] == r2[t],
        lead_of_s(r1, j) < c,
    ensures
        lead_of_s(r2, j) == lead_of_s(r1, j),
    decreases r1.len() - j,
{
    if j < r1.len() {
        if r1[j] == K::spec_zero() {
            lemma_lead_of_bounds(r1, j + 1);
            lemma_lead_of_agree(r1, r2, j + 1, c);
        }
    }
}

/// Reduced row echelon form: zero rows sit at the bottom, leading entries
/// move strictly right from row to row, every leading entry is one, and the
/// column of each leading entry is zero in every other row.
pub open spec fn is_rref_s<K: Numeric>(m: Seq<Seq<K>>) -> bool {
    &&& (forall|i1: int, i2: int|
        0 <= i1 < i2 < m.len() && is_zero_row_s(#[trigger] m[i1]) ==> is_zero_row_s(
            #[trigger] m[i2],
        ))
    &&& (forall|i1: int, i2: int|
        0 <= i1 < i2 < m.len() && !is_zero_row_s(#[trigger] m[i1]) && !is_zero_row_s(
            #[trigger] m[i2],
        ) ==> lead_s(m[i1]) < lead_s(m[i2]))
    &&& (forall|i: int|
        0 <= i < m.len() && !is_zero_row_s(#[trigger] m[i]) ==> m[i][lead_s(m[i])]
            == K::spec_one())
    &&& (forall|i: int, k: int|
        0 <= i < m.len() && !is_zero_row_s(#[trigger] m[i]) && 0 <= k < m.len() && k != i
            ==> (#[trigger] m[k])[lead_s(m[i])] == K::spec_zero())
}

/// Row echelon form: zero rows sit at the bottom and leading entries move
/// strictly right from row to row; pivots need not be one nor cleared above.
pub open spec fn is_echelon_s<K: Numeric>(m: Seq<Seq<K>>) -> bool {
    &&& (forall|i1: int, i2: int|
        0 <= i1 < i2 < m.len() && is_zero_row_s(#[trigger] m[i1]) ==> is_zero_row_s(
            #[trigger] m[i2],
        ))
    &&& (forall|i1: int, i2: int|
        0 <= i1 < i2 < m.len() && !is_zero_row_s(#[trigger] m[i1]) && !is_zero_row_s(
            #[trigger] m[i2],
        ) ==> lead_s(m[i1]) < lead_s(m[i2]))
}

/// The identity grid of size `n`: one on the diagonal, zero elsewhere.
pub open spec fn identity_s<K: Numeric>(n: nat) -> Seq<Seq<K>> {
    Seq::new(
        n,
        |i: int|
            Seq::new(
                n,
                |j: int|
                    if i == j {
                        K::spec_one()
                    } else {
                        K::spec_zero()
                    },
            ),
    )
}

/// The identity grid is well-formed and square.
pub proof fn lemma_identity_wf<K: Numeric>(n: nat)
    ensures
        identity_s::<K>(n).len() == n,
        grid_rect(identity_s::<K>(n), n),
        grid_valid(identity_s::<K>(n)),
{
    let m = identity_s::<K>(n);
    K::axiom_identities();
    assert forall|i: int| 0 <= i < m.len() implies row_valid(#[trigger] m[i]) by {
        assert forall|j: int| 0 <= j < m[i].len() implies (#[trigger] m[i][j]).valid() by {
        }
    }
}

/// Each identity row leads with the one on the diagonal.
pub proof fn lemma_identity_lead<K: Numeric>(n: nat, i: int)
    requires
        0 <= i < n,
    ensures
        !is_zero_row_s(identity_s::<K>(n)[i]),
        lead_s(identity_s::<K>(n)[i]) == i,
    decreases n,
{
    let r = identity_s::<K>(n)[i];
    K::axiom_identities();
    assert(r[i] == K::spec_one());
    lemma_lead_of_bounds(r, 0);
    if lead_s(r) < i {
        assert(r[lead_s(r)] != K::spec_zero());
        assert(r[lead_s(r)] == K::spec_zero());
    }
    if lead_s(r) > i {
        assert(r[i] == K::spec_zero());
    }
}

/// The identity grid is in reduced row echelon form.
pub proof fn lemma_identity_rref<K: Numeric>(n: nat)
    ensures
        is_rref_s(identity_s::<K>(n)),
        is_echelon_s(identity_s::<K>(n)),
{
    let m = identity_s::<K>(n);
    K::axiom_identities();
    assert forall|i: int| 0 <= i < m.len() implies !is_zero_row_s(#[trigger] m[i]) && lead_s(
        m[i],
    ) == i by {
        lemma_identity_lead::<K>(n, i);
    }
    assert forall|i: int, k: int|
        0 <= i < m.len() && !is_zero_row_s(#[trigger] m[i]) && 0 <= k < m.len() && k != i implies (
    #[trigger] m[k])[lead_s(m[i])] == K::spec_zero() by {
        lemma_identity_lead::<K>(n, i);
    }
}


/// A row whose first `c` entries are zero and whose entry at `c` is not
/// leads exactly at `c`.
pub proof fn lemma_lead_is<K: Numeric>(r: Seq<K>, c: int)
    requires
        0 <= c < r.len(),
        forall|t: int| 0 <= t < c ==> r[t] == K::spec_zero(),
        r[c] != K::spec_zero(),
    ensures
        lead_s(r) == c,
        !is_zero_row_s(r),
{
    lemma_lead_of_bounds(r, 0);
    if lead_s(r) < c {
        assert(r[lead_s(r)] != K::spec_zero());
    }
    if lead_s(r) > c {
        assert(r[c] == K::spec_zero());
    }
}

/// A row whose first `c` entries are zero leads no earlier than `c`.
pub proof fn lemma_lead_at_least<K: Numeric>(r: Seq<K>, c: int)
    requires
        0 <= c <= r.len(),
        forall|t: int| 0 <= t < c ==> r[t] == K::spec_zero(),
    ensures
        lead_s(r) >= c,
{
    lemma_lead_of_bounds(r, 0);
    if lead_s(r) < c {
        assert(r[lead_s(r)] != K::spec_zero());
    }
}

/// Where the column is zero from `from` down, the pivot search finds nothing.
proof fn lemma_find_pivot_none<K: Numeric>(m: Seq<Seq<K>>, c: int, from: int)
    requires
        0 <= from,
        forall|k: int| from <= k < m.len() ==> m[k][c] == K::spec_zero(),
    ensures
        find_pivot_s(m, c, from) is None,
    decreases m.len() - from,
{
    if from < m.len() {
        lemma_find_pivot_none(m, c, from + 1);
    }
}

/// What a successful pivot search means: the found row is the first at or
/// below `from` with a non-zero entry in column `c`.
pub proof fn lemma_find_pivot_some<K: Numeric>(m: Seq<Seq<K>>, c: int, from: int, i: int)
    requires
        0 <= from,
        find_pivot_s(m, c, from) == Some(i),
    ensures
        from <= i < m.len(),
        m[i][c] != K::spec_zero(),
        forall|k: int| from <= k < i ==> m[k][c] == K::spec_zero(),
    decreases m.len() - from,
{
    if from < m.len() && m[from][c] == K::spec_zero() {
        lemma_find_pivot_some(m, c, from + 1, i);
    }
}

/// What a failed pivot search means: the column is zero from `from` down.
proof fn lemma_find_pivot_none_converse<K: Numeric>(m: Seq<Seq<K>>, c: int, from: int)
    requires
        0 <= from,
        find_pivot_s(m, c, from) is None,
    ensures
        forall|k: int| from <= k < m.len() ==> m[k][c] == K::spec_zero(),
    decreases m.len() - from,
{
    if from < m.len() {
        lemma_find_pivot_none_converse(m, c, from + 1);
    }
}

/// On a grid already in reduced row echelon form, Gauss-Jordan elimination
/// changes nothing, from any position consistent with the form.
proof fn lemma_rref_fixed_from<K: Numeric>(m: Seq<Seq<K>>, cols: int, r: int, c: int)
    requires
        0 <= cols,
        grid_rect(m, cols as nat),
        grid_valid(m),
        is_rref_s(m),
        0 <= r <= m.len(),
        0 <= c <= cols,
        forall|i: int| r <= i < m.len() ==> lead_s(#[trigger] m[i]) >= c,
        forall|i: int| 0 <= i < r ==> !is_zero_row_s(#[trigger] m[i]) && lead_s(m[i]) < c,
    ensures
        rref_from_s(m, cols, r, c) == m,
    decreases cols - c,
{
    let rows = m.len() as int;
    if r >= rows || c >= cols {
        // Nothing left to do by definition.
    } else {
        assert(m[r].len() == cols);
        lemma_lead_of_bounds(m[r], 0);
        if !is_zero_row_s(m[r]) && lead_s(m[r]) == c {
            // The pivot search finds row r itself.
            assert(m[r][c] != K::spec_zero());
            assert(find_pivot_s(m, c, r) == Some(r));
            let ms = swap_rows_s(m, r, r);
            assert(ms =~= m);
            // Normalizing by the unit pivot and eliminating the already
            // cleared column are both no-ops.
            let d = m[r][c];
            assert(d == K::spec_one());
            let nr = row_div_s(m[r], d);
            assert forall|j: int| 0 <= j < cols implies nr[j] == m[r][j] by {
                assert(m[r][j].valid());
                lemma_div_one(m[r][j]);
            }
            assert(nr =~= m[r]);
            let me = rref_elim_s(m, r, c);
            assert forall|k: int| 0 <= k < rows implies me[k] == m[k] by {
                if k != r {
                    assert(m[k][c] == K::spec_zero());
                    assert(m[k].len() == cols);
                    assert forall|j: int| 0 <= j < cols implies row_sub_mul_s(
                        m[k],
                        nr,
                        m[k][c],
                    )[j] == m[k][j] by {
                        assert(m[k][j].valid());
                        assert(nr[j].valid());
                        lemma_sub_mul_zero(m[k][j], nr[j]);
                    }
                    assert(row_sub_mul_s(m[k], nr, m[k][c]) =~= m[k]);
                }
            }
            assert(me =~= m);
            assert forall|i: int| r + 1 <= i < m.len() implies lead_s(#[trigger] m[i]) >= c + 1
            by {
                if !is_zero_row_s(m[i]) {
                    assert(lead_s(m[i]) > lead_s(m[r]));
                } else {
                    lemma_lead_zero_row(m[i]);
                    assert(m[i].len() == cols);
                }
            }
            lemma_rref_fixed_from(m, cols, r + 1, c + 1);
            assert(rref_from_s(m, cols, r, c) == rref_from_s(me, cols, r + 1, c + 1));
        } else {
            // No pivot lives in this column at or below r.
            assert forall|k: int| r <= k < rows implies m[k][c] == K::spec_zero() by {
                if is_zero_row_s(m[r]) {
                    if k > r {
                        assert(is_zero_row_s(m[k]));
                    }
                    assert(m[k].len() == cols);
                } else {
                    assert(lead_s(m[r]) > c);
                    if k == r {
                        lemma_lead_of_bounds(m[r], 0);
                    } else {
                        if is_zero_row_s(m[k]) {
                            assert(m[k].len() == cols);
                        } else {
                            assert(lead_s(m[k]) > lead_s(m[r]));
                            lemma_lead_of_bounds(m[k], 0);
                            assert(m[k].len() == cols);
                        }
                    }
                }
            }
            lemma_find_pivot_none(m, c, r);
            assert forall|i: int| r <= i < m.len() implies lead_s(#[trigger] m[i]) >= c + 1 by {
                assert(m[i][c] == K::spec_zero());
                assert(m[i].len() == cols);
                if lead_s(m[i]) == c {
                    lemma_lead_of_bounds(m[i], 0);
                }
            }
            lemma_rref_fixed_from(m, cols, r, c + 1);
        }
    }
}


/// The heart of the structural argument: from a state where the first `r`
/// rows already carry unit pivots at strictly increasing columns below `c`,
/// cleared everywhere else, and every further row is zero left of `c`,
/// Gauss-Jordan elimination ends in reduced row echelon form.
proof fn lemma_rref_from_props<K: Numeric>(m: Seq<Seq<K>>, cols: int, r: int, c: int)
    requires
        0 <= cols,
        grid_rect(m, cols as nat),
        grid_valid(m),
        0 <= r <= m.len(),
        0 <= c <= cols,
        forall|i: int| 0 <= i < r ==> !is_zero_row_s(#[trigger] m[i]) && lead_s(m[i]) < c,
        forall|i1: int, i2: int|
            0 <= i1 < i2 < r ==> lead_s(#[trigger] m[i1]) < lead_s(#[trigger] m[i2]),
        forall|i: int| 0 <= i < r ==> (#[trigger] m[i])[lead_s(m[i])] == K::spec_one(),
        forall|i: int, k: int|
            0 <= i < r && 0 <= k < m.len() && k != i ==> (#[trigger] m[k])[lead_s(#[trigger] m[i])]
                == K::spec_zero(),
        forall|i: int| r <= i < m.len() ==> lead_s(#[trigger] m[i]) >= c,
    ensures
        rref_from_s(m, cols, r, c).len() == m.len(),
        grid_rect(rref_from_s(m, cols, r, c), cols as nat),
        grid_valid(rref_from_s(m, cols, r, c)),
        is_rref_s(rref_from_s(m, cols, r, c)),
    decreases cols - c,
{
    let rows = m.len() as int;
    if r >= rows || c >= cols {
        // The recursion has stopped; the state conditions already say that
        // what is left is reduced row echelon form.
        assert forall|i: int| r <= i < rows && c >= cols implies is_zero_row_s(#[trigger] m[i])
        by {
            assert(m[i].len() == cols);
            lemma_lead_of_bounds(m[i], 0);
            lemma_lead_zero_row(m[i]);
        }
        assert forall|i1: int, i2: int|
            0 <= i1 < i2 < rows && is_zero_row_s(#[trigger] m[i1]) implies is_zero_row_s(
            #[trigger] m[i2],
        ) by {
            assert(i1 >= r);
            assert(c >= cols);
        }
        assert(is_rref_s(m)) by {
            assert forall|i1: int, i2: int|
                0 <= i1 < i2 < rows && !is_zero_row_s(#[trigger] m[i1]) && !is_zero_row_s(
                    #[trigger] m[i2],
                ) implies lead_s(m[i1]) < lead_s(m[i2]) by {
                if i2 >= r {
                    assert(c >= cols);
                    assert(is_zero_row_s(m[i2]));
                }
            }
            assert forall|i: int| 0 <= i < rows && !is_zero_row_s(#[trigger] m[i]) implies
                m[i][lead_s(m[i])] == K::spec_one() by {
                if i >= r {
                    assert(c >= cols);
                    assert(is_zero_row_s(m[i]));
                }
            }
            assert forall|i: int, k: int|
                0 <= i < rows && !is_zero_row_s(#[trigger] m[i]) && 0 <= k < rows && k != i
                implies (#[trigger] m[k])[lead_s(m[i])] == K::spec_zero() by {
                if i >= r {
                    assert(c >= cols);
                    assert(is_zero_row_s(m[i]));
                }
            }
        }
    } else {
        match find_pivot_s(m, c, r) {
            Option::None => {
                lemma_find_pivot_none_converse(m, c, r);
                assert forall|i: int| r <= i < rows implies lead_s(#[trigger] m[i]) >= c + 1 by {
                    assert(m[i][c] == K::spec_zero());
                    assert(m[i].len() == cols);
                    if lead_s(m[i]) == c {
                        lemma_lead_of_bounds(m[i], 0);
                    }
                }
                lemma_rref_from_props(m, cols, r, c + 1);
            },
            Option::Some(p) => {
                lemma_find_pivot_some(m, c, r, p);
                let ms = swap_rows_s(m, r, p);
                // The swap touches only rows at or past r.
                assert(ms.len() == rows);
                assert(ms[r as int] == m[p]);
                assert forall|t: int| 0 <= t < rows implies (#[trigger] ms[t]) == m[t] || ms[t]
                    == m[r] || ms[t] == m[p] by {}
                assert forall|t: int| 0 <= t < r implies (#[trigger] ms[t]) == m[t] by {}
                assert(grid_rect(ms, cols as nat)) by {
                    assert forall|t: int| 0 <= t < rows implies (#[trigger] ms[t]).len() == cols
                    by {
                        assert(ms[t] == m[t] || ms[t] == m[r] || ms[t] == m[p]);
                    }
                }
                assert(grid_valid(ms)) by {
                    assert forall|t: int| 0 <= t < rows implies row_valid(#[trigger] ms[t]) by {
                        assert(ms[t] == m[t] || ms[t] == m[r] || ms[t] == m[p]);
                        assert(row_valid(m[t]) && row_valid(m[r]) && row_valid(m[p]));
                    }
                }
                // The pivot row now leads exactly at c.
                assert(ms[r as int][c] != K::spec_zero());
                assert(lead_s(ms[r as int]) >= c);
                lemma_lead_of_bounds(ms[r as int], 0);
                assert forall|t: int| 0 <= t < c implies ms[r as int][t] == K::spec_zero() by {
                    if lead_s(ms[r as int]) > t {
                    }
                }
                lemma_lead_is(ms[r as int], c);
                // Rows at or past r still lead at or past c.
                assert forall|i: int| r <= i < rows implies lead_s(#[trigger] ms[i]) >= c by {
                    assert(ms[i] == m[i] || ms[i] == m[r] || ms[i] == m[p]);
                }
                let d = ms[r as int][c];
                let nr = row_div_s(ms[r as int], d);
                let me = rref_elim_s(ms, r, c);
                assert(d.valid());
                // The normalized pivot row: zeros before c, one at c.
                assert(nr.len() == cols);
                assert forall|j: int| 0 <= j < cols implies (#[trigger] nr[j]).valid() by {
                    K::axiom_div(ms[r as int][j], d);
                }
                assert forall|j: int| 0 <= j < c implies nr[j] == K::spec_zero() by {
                    lemma_zero_div::<K>(d);
                }
                assert(nr[c] == K::spec_one()) by {
                    lemma_div_self(d);
                }
                K::axiom_identities();
                lemma_lead_is(nr, c);
                // The eliminated rows: everything left of c kept, the entry
                // at c cleared.
                assert(me.len() == rows);
                assert(me[r as int] == nr);
                assert forall|k: int| 0 <= k < rows && k != r implies (#[trigger] me[k]).len()
                    == cols && (forall|j: int| 0 <= j < c ==> #[trigger] me[k][j] == ms[k][j])
                    && me[k][c] == K::spec_zero() && row_valid(me[k]) by {
                    let f = ms[k][c];
                    assert(me[k] == row_sub_mul_s(ms[k], nr, f));
                    assert(ms[k].len() == cols);
                    assert(f.valid());
                    assert forall|j: int| 0 <= j < cols implies (#[trigger] me[k][j]) == ms[k][j].spec_sub(
                        f.spec_mul(nr[j]),
                    ) && me[k][j].valid() by {
                        K::axiom_mul(f, nr[j]);
                        K::axiom_sub(ms[k][j], f.spec_mul(nr[j]));
                    }
                    assert forall|j: int| 0 <= j < c implies #[trigger] me[k][j] == ms[k][j] by {
                        assert(nr[j] == K::spec_zero());
                        lemma_mul_zero(f);
                        lemma_sub_zero(ms[k][j]);
                    }
                    assert(me[k][c] == K::spec_zero()) by {
                        lemma_sub_mul_one(f);
                    }
                }
                assert(grid_rect(me, cols as nat));
                assert(grid_valid(me)) by {
                    assert forall|t: int| 0 <= t < rows implies row_valid(#[trigger] me[t]) by {
                        if t == r {
                            assert(me[t] == nr);
                        }
                    }
                }
                // Processed rows keep their leads, pivots and zeros.
                assert forall|i: int| 0 <= i < r implies !is_zero_row_s(#[trigger] me[i])
                    && lead_s(me[i]) == lead_s(ms[i]) && me[i][lead_s(me[i])] == K::spec_one()
                by {
                    assert(ms[i] == m[i]);
                    assert(lead_s(ms[i]) < c);
                    lemma_lead_of_bounds(ms[i], 0);
                    lemma_lead_of_agree(ms[i], me[i], 0, c);
                    assert(me[i][lead_s(ms[i])] == ms[i][lead_s(ms[i])]);
                    lemma_lead_of_bounds(me[i], 0);
                    lemma_lead_zero_row(me[i]);
                }
                // Conditions for the recursive call at (r + 1, c + 1).
                assert forall|i: int| 0 <= i < r + 1 implies !is_zero_row_s(#[trigger] me[i])
                    && lead_s(me[i]) < c + 1 by {
                    if i == r {
                        assert(me[i] == nr);
                    }
                }
                assert forall|i1: int, i2: int| 0 <= i1 < i2 < r + 1 implies lead_s(
                    #[trigger] me[i1],
                ) < lead_s(#[trigger] me[i2]) by {
                    assert(lead_s(me[i1]) == lead_s(ms[i1]) && lead_s(ms[i1]) == lead_s(m[i1]));
                    if i2 == r {
                        assert(lead_s(me[i2]) == c);
                        assert(lead_s(m[i1]) < c);
                    } else {
                        assert(lead_s(me[i2]) == lead_s(ms[i2]) && lead_s(ms[i2]) == lead_s(
                            m[i2],
                        ));
                    }
                }
                assert forall|i: int| 0 <= i < r + 1 implies (#[trigger] me[i])[lead_s(me[i])]
                    == K::spec_one() by {
                    if i == r {
                        assert(me[i] == nr && lead_s(nr) == c);
                    }
                }
                assert forall|i: int, k: int|
                    0 <= i < r + 1 && 0 <= k < rows && k != i implies (#[trigger] me[k])[lead_s(
                    #[trigger] me[i],
                )] == K::spec_zero() by {
                    if i == r {
                        assert(lead_s(me[i]) == c);
                        assert(me[k][c] == K::spec_zero());
                    } else {
                        let l0 = lead_s(me[i]);
                        assert(lead_s(me[i]) == lead_s(ms[i]));
                        assert(ms[i] == m[i]);
                        lemma_lead_of_bounds(m[i], 0);
                        assert(l0 == lead_s(m[i]) && l0 < c && 0 <= l0);
                        // Column l0 was zero outside row i before the step
                        // and entries left of c did not move.
                        assert(ms[k][l0] == K::spec_zero()) by {
                            assert(ms[k] == m[k] || ms[k] == m[r] || ms[k] == m[p]);
                            assert(m[k][l0] == K::spec_zero() || k == i);
                            assert(m[r][l0] == K::spec_zero() && m[p][l0] == K::spec_zero()) by {
                                assert(r != i && p != i);
                            }
                        }
                        if k == r {
                            assert(me[k] == nr);
                            assert(nr[l0] == ms[r as int][l0].spec_div(d));
                            lemma_zero_div::<K>(d);
                        } else {
                            assert(me[k][l0] == ms[k][l0]);
                        }
                    }
                }
                assert forall|i: int| r + 1 <= i < rows implies lead_s(#[trigger] me[i]) >= c + 1
                by {
                    assert(me[i].len() == cols);
                    assert forall|t: int| 0 <= t < c + 1 implies #[trigger] me[i][t]
                        == K::spec_zero() by {
                        if t < c {
                            assert(me[i][t] == ms[i][t]);
                            assert(lead_s(ms[i]) >= c);
                            lemma_lead_of_bounds(ms[i], 0);
                        }
                    }
                    lemma_lead_at_least(me[i], c + 1);
                }
                lemma_rref_from_props(me, cols, r + 1, c + 1);
                assert(rref_from_s(m, cols, r, c) == rref_from_s(me, cols, r + 1, c + 1));
            },
        }
    }
}

/// Full reduction lands in reduced row echelon form, whatever the start.
pub proof fn lemma_reduction_is_rref<K: Numeric>(m: Seq<Seq<K>>, cols: int)
    requires
        0 <= cols,
        grid_rect(m, cols as nat),
        grid_valid(m),
    ensures
        spec_reduced_row_echelon(m, cols).len() == m.len(),
        grid_rect(spec_reduced_row_echelon(m, cols), cols as nat),
        grid_valid(spec_reduced_row_echelon(m, cols)),
        is_rref_s(spec_reduced_row_echelon(m, cols)),
{
    assert forall|i: int| 0 <= i < m.len() implies lead_s(#[trigger] m[i]) >= 0 by {
        assert(m[i].len() == cols);
        lemma_lead_of_bounds(m[i], 0);
    }
    lemma_rref_from_props(m, cols, 0, 0);
}

/// Applying the full reduction twice gives what one application gives:
/// reduction is idempotent.
pub proof fn theorem_rref_idempotent<K: Numeric>(m: Seq<Seq<K>>, cols: int)
    requires
        0 <= cols,
        grid_rect(m, cols as nat),
        grid_valid(m),
    ensures
        spec_reduced_row_echelon(spec_reduced_row_echelon(m, cols), cols)
            == spec_reduced_row_echelon(m, cols),
{
    lemma_reduction_is_rref(m, cols);
    let w = spec_reduced_row_echelon(m, cols);
    assert forall|i: int| 0 <= i < w.len() implies lead_s(#[trigger] w[i]) >= 0 by {
        assert(w[i].len() == cols);
        lemma_lead_of_bounds(w[i], 0);
    }
    lemma_rref_fixed_from(w, cols, 0, 0);
}


/// On a grid already in row echelon form, forward elimination changes
/// nothing, from any position consistent with the form.
proof fn lemma_ref_fixed_from<K: Numeric>(m: Seq<Seq<K>>, cols: int, r: int, c: int)
    requires
        0 <= cols,
        grid_rect(m, cols as nat),
        grid_valid(m),
        is_echelon_s(m),
        0 <= r <= m.len(),
        0 <= c <= cols,
        forall|i: int| r <= i < m.len() ==> lead_s(#[trigger] m[i]) >= c,
        forall|i: int| 0 <= i < r ==> !is_zero_row_s(#[trigger] m[i]) && lead_s(m[i]) < c,
    ensures
        ref_from_s(m, cols, r, c) == m,
    decreases cols - c,
{
    let rows = m.len() as int;
    if r >= rows || c >= cols {
    } else {
        assert(m[r].len() == cols);
        lemma_lead_of_bounds(m[r], 0);
        if !is_zero_row_s(m[r]) && lead_s(m[r]) == c {
            assert(m[r][c] != K::spec_zero());
            assert(find_pivot_s(m, c, r) == Some(r));
            let ms = swap_rows_s(m, r, r);
            assert(ms =~= m);
            let me = ref_elim_s(m, r, c);
            assert forall|k: int| 0 <= k < rows implies me[k] == m[k] by {
                if k > r {
                    assert(m[k][c] == K::spec_zero()) by {
                        assert(m[k].len() == cols);
                        if is_zero_row_s(m[k]) {
                        } else {
                            assert(lead_s(m[k]) > lead_s(m[r]));
                            lemma_lead_of_bounds(m[k], 0);
                        }
                    }
                    let f = m[k][c].spec_div(m[r][c]);
                    assert(f == K::spec_zero()) by {
                        lemma_zero_div::<K>(m[r][c]);
                    }
                    assert forall|j: int| 0 <= j < cols implies row_sub_mul_s(m[k], m[r], f)[j]
                        == m[k][j] by {
                        assert(m[k][j].valid() && m[r][j].valid());
                        lemma_sub_mul_zero(m[k][j], m[r][j]);
                    }
                    assert(row_sub_mul_s(m[k], m[r], f) =~= m[k]);
                }
            }
            assert(me =~= m);
            assert forall|i: int| r + 1 <= i < m.len() implies lead_s(#[trigger] m[i]) >= c + 1
            by {
                if !is_zero_row_s(m[i]) {
                    assert(lead_s(m[i]) > lead_s(m[r]));
                } else {
                    lemma_lead_zero_row(m[i]);
                    assert(m[i].len() == cols);
                }
            }
            lemma_ref_fixed_from(m, cols, r + 1, c + 1);
            assert(ref_from_s(m, cols, r, c) == ref_from_s(me, cols, r + 1, c + 1));
        } else {
            assert forall|k: int| r <= k < rows implies m[k][c] == K::spec_zero() by {
                if is_zero_row_s(m[r]) {
                    if k > r {
                        assert(is_zero_row_s(m[k]));
                    }
                    assert(m[k].len() == cols);
                } else {
                    assert(lead_s(m[r]) > c);
                    if k == r {
                    } else {
                        if is_zero_row_s(m[k]) {
                            assert(m[k].len() == cols);
                        } else {
                            assert(lead_s(m[k]) > lead_s(m[r]));
                            lemma_lead_of_bounds(m[k], 0);
                            assert(m[k].len() == cols);
                        }
                    }
                }
            }
            lemma_find_pivot_none(m, c, r);
            assert forall|i: int| r <= i < m.len() implies lead_s(#[trigger] m[i]) >= c + 1 by {
                assert(m[i][c] == K::spec_zero());
                assert(m[i].len() == cols);
                if lead_s(m[i]) == c {
                    lemma_lead_of_bounds(m[i], 0);
                }
            }
            lemma_ref_fixed_from(m, cols, r, c + 1);
        }
    }
}

/// The identity widened with itself, `[I | I]`, is well-formed and already
/// in reduced row echelon form.
proof fn lemma_augmented_identity<K: Numeric>(n: nat)
    ensures
        augment_s(identity_s::<K>(n)).len() == n,
        grid_rect(augment_s(identity_s::<K>(n)), 2 * n),
        grid_valid(augment_s(identity_s::<K>(n))),
        is_rref_s(augment_s(identity_s::<K>(n))),
        forall|i: int|
            0 <= i < n ==> lead_s(#[trigger] augment_s(identity_s::<K>(n))[i]) == i
                && !is_zero_row_s(augment_s(identity_s::<K>(n))[i]),
{
    let a = augment_s(identity_s::<K>(n));
    K::axiom_identities();
    lemma_identity_wf::<K>(n);
    assert forall|i: int| 0 <= i < n implies row_valid(#[trigger] a[i]) by {
        assert forall|j: int| 0 <= j < a[i].len() implies (#[trigger] a[i][j]).valid() by {
            if j < n {
                assert(a[i][j] == identity_s::<K>(n)[i][j]);
                assert(row_valid(identity_s::<K>(n)[i]));
            }
        }
    }
    assert forall|i: int| 0 <= i < n implies lead_s(#[trigger] a[i]) == i && !is_zero_row_s(
        a[i],
    ) by {
        assert(a[i][i] == identity_s::<K>(n)[i][i]);
        assert(a[i][i] == K::spec_one());
        assert forall|t: int| 0 <= t < i implies a[i][t] == K::spec_zero() by {
            assert(a[i][t] == identity_s::<K>(n)[i][t]);
        }
        lemma_lead_is(a[i], i);
    }
    assert forall|i: int, k: int|
        0 <= i < a.len() && !is_zero_row_s(#[trigger] a[i]) && 0 <= k < a.len() && k != i implies (
    #[trigger] a[k])[lead_s(a[i])] == K::spec_zero() by {
        assert(lead_s(a[i]) == i);
        assert(a[k][i] == identity_s::<K>(n)[k][i]);
    }
}

/// A backward pass whose factors are all zero changes nothing.
pub proof fn lemma_back_pass_fixed<K: Numeric>(m: Seq<Seq<K>>, cols: nat, i: int)
    requires
        grid_rect(m, cols),
        grid_valid(m),
        i < m.len(),
        i < cols,
        forall|i2: int, k: int| 0 <= k < i2 <= i ==> #[trigger] m[k][i2] == K::spec_zero(),
    ensures
        back_pass_s(m, i) == m,
    decreases i + 1,
{
    if i >= 0 {
        let me = back_elim_s(m, i);
        assert forall|k: int| 0 <= k < m.len() implies me[k] == m[k] by {
            if k < i {
                assert(m[k][i] == K::spec_zero());
                assert forall|j: int| 0 <= j < m[k].len() implies row_sub_mul_s(
                    m[k],
                    m[i],
                    m[k][i],
                )[j] == m[k][j] by {
                    assert(row_valid(m[k]) && row_valid(m[i]));
                    assert(m[k].len() == cols && m[i].len() == cols);
                    lemma_sub_mul_zero(m[k][j], m[i][j]);
                }
                assert(row_sub_mul_s(m[k], m[i], m[k][i]) =~= m[k]);
            }
        }
        assert(me =~= m);
        lemma_back_pass_fixed(me, cols, i - 1);
    }
}

/// The diagonal product of the identity is the multiplicative identity.
proof fn lemma_diag_prod_identity<K: Numeric>(n: nat, k: int)
    requires
        0 <= k <= n,
    ensures
        diag_prod_s(identity_s::<K>(n), k) == K::spec_one(),
    decreases k,
{
    K::axiom_identities();
    if k > 0 {
        lemma_diag_prod_identity::<K>(n, k - 1);
        assert(identity_s::<K>(n)[k - 1][k - 1] == K::spec_one());
        K::axiom_mul(K::spec_one(), K::spec_one());
    }
}

/// Every one of the first `k` identity rows counts as non-zero.
proof fn lemma_count_identity<K: Numeric>(n: nat, k: int)
    requires
        0 <= k <= n,
    ensures
        count_nonzero_rows_s(identity_s::<K>(n), k) == k,
    decreases k,
{
    K::axiom_identities();
    if k > 0 {
        lemma_count_identity::<K>(n, k - 1);
        let r = identity_s::<K>(n)[k - 1];
        assert(r[k - 1] == K::spec_one());
        assert(row_nonzero_s(r));
    }
}

/// On the identity matrix the three derived algorithms answer exactly as
/// the theory says: determinant one, full rank, and the identity again as
/// its own inverse.
pub proof fn theorem_identity_reduction<K: Numeric>(n: nat)
    ensures
        spec_determinant(identity_s::<K>(n), n as int) == Result::<K, MatrixError>::Ok(
            K::spec_one(),
        ),
        spec_rank(identity_s::<K>(n), n as int) == n,
        spec_inverse(identity_s::<K>(n), n as int) == Result::<Seq<Seq<K>>, MatrixError>::Ok(
            identity_s::<K>(n),
        ),
{
    let idm = identity_s::<K>(n);
    K::axiom_identities();
    lemma_identity_wf::<K>(n);
    lemma_identity_rref::<K>(n);
    assert forall|i: int| 0 <= i < n implies lead_s(#[trigger] idm[i]) >= 0 by {
        lemma_identity_lead::<K>(n, i);
    }
    // Forward elimination leaves the identity alone, so the determinant is
    // the product of its unit diagonal.
    lemma_ref_fixed_from(idm, n as int, 0, 0);
    lemma_diag_prod_identity::<K>(n, n as int);
    assert(spec_row_echelon(idm, n as int) == idm);
    // Full reduction leaves it alone too, and every row counts for rank.
    lemma_rref_fixed_from(idm, n as int, 0, 0);
    assert(spec_reduced_row_echelon(idm, n as int) == idm);
    lemma_count_identity::<K>(n, n as int);
    // The augmented [I | I] is already reduced; the diagonal is all ones;
    // the backward pass has nothing to clear; the right block is I.
    let a = augment_s(idm);
    lemma_augmented_identity::<K>(n);
    assert forall|i: int| 0 <= i < a.len() implies lead_s(#[trigger] a[i]) >= 0 by {
        lemma_lead_of_bounds(a[i], 0);
    }
    lemma_rref_fixed_from(a, 2 * n as int, 0, 0);
    assert(spec_reduced_row_echelon(a, 2 * n as int) == a);
    assert forall|i: int| 0 <= i < n implies #[trigger] a[i][i] != K::spec_zero() by {
        assert(a[i][i] == idm[i][i]);
    }
    assert(!(exists|i: int| 0 <= i < n && #[trigger] a[i][i] == K::spec_zero()));
    if n > 0 {
        assert forall|i2: int, k: int| 0 <= k < i2 <= n - 1 implies #[trigger] a[k][i2]
            == K::spec_zero() by {
            assert(a[k][i2] == idm[k][i2]);
        }
        lemma_back_pass_fixed(a, 2 * n, n as int - 1);
    }
    assert(back_pass_s(a, n as int - 1) == a);
    let rh = right_half_s(a, n as int);
    assert forall|i: int| 0 <= i < n implies rh[i] == idm[i] by {
        assert forall|j: int| 0 <= j < n implies rh[i][j] == idm[i][j] by {
            assert(rh[i][j] == a[i][n + j]);
        }
        assert(rh[i] =~= idm[i]);
    }
    assert(rh =~= idm);
}

/// A zero row cannot be brought back to life: every Gauss-Jordan state
/// reached from a grid with an all-zero row still has one.
proof fn lemma_rref_keeps_zero_row<K: Numeric>(m: Seq<Seq<K>>, cols: int, r: int, c: int, z: int)
    requires
        0 <= cols,
        grid_rect(m, cols as nat),
        grid_valid(m),
        0 <= r <= m.len(),
        0 <= c <= cols,
        0 <= z < m.len(),
        is_zero_row_s(m[z]),
    ensures
        exists|z2: int|
            0 <= z2 < m.len() && is_zero_row_s(#[trigger] rref_from_s(m, cols, r, c)[z2]),
    decreases cols - c,
{
    let rows = m.len() as int;
    if r >= rows || c >= cols {
        assert(is_zero_row_s(rref_from_s(m, cols, r, c)[z]));
    } else {
        match find_pivot_s(m, c, r) {
            Option::None => {
                lemma_rref_keeps_zero_row(m, cols, r, c + 1, z);
                let z3 = choose|z3: int|
                    0 <= z3 < m.len() && is_zero_row_s(#[trigger] rref_from_s(m, cols, r, c + 1)[z3]);
                assert(is_zero_row_s(rref_from_s(m, cols, r, c)[z3]));
            },
            Option::Some(p) => {
                lemma_find_pivot_some(m, c, r, p);
                assert(m[z].len() == cols);
                assert(m[z][c] == K::spec_zero());
                assert(p != z);
                let ms = swap_rows_s(m, r, p);
                let z2: int = if z == r {
                    p
                } else if z == p {
                    r
                } else {
                    z
                };
                assert(ms[z2] == m[z]);
                assert(z2 != r) by {
                    assert(ms[r as int] == m[p]);
                    assert(m[p][c] != K::spec_zero());
                }
                // Shapes survive the swap.
                assert(grid_rect(ms, cols as nat) && grid_valid(ms)) by {
                    assert forall|t: int| 0 <= t < rows implies (#[trigger] ms[t]).len() == cols
                        && row_valid(ms[t]) by {
                        assert(ms[t] == m[t] || ms[t] == m[r] || ms[t] == m[p]);
                        assert(row_valid(m[t]) && row_valid(m[r]) && row_valid(m[p]));
                    }
                }
                let d = ms[r as int][c];
                let nr = row_div_s(ms[r as int], d);
                let me = rref_elim_s(ms, r, c);
                assert(d.valid() && d != K::spec_zero());
                assert forall|j: int| 0 <= j < cols implies (#[trigger] nr[j]).valid() by {
                    K::axiom_div(ms[r as int][j], d);
                }
                // The zero row is untouched: its factor is zero.
                assert(me[z2] == row_sub_mul_s(ms[z2], nr, ms[z2][c]));
                assert(ms[z2][c] == K::spec_zero());
                assert(is_zero_row_s(me[z2])) by {
                    assert forall|j: int| 0 <= j < me[z2].len() implies me[z2][j]
                        == K::spec_zero() by {
                        assert(me[z2][j] == ms[z2][j].spec_sub(ms[z2][c].spec_mul(nr[j])));
                        assert(ms[z2][j] == K::spec_zero());
                        lemma_sub_mul_zero(ms[z2][j], nr[j]);
                    }
                }
                // Shapes survive the elimination.
                assert(grid_rect(me, cols as nat) && grid_valid(me)) by {
                    assert forall|t: int| 0 <= t < rows implies (#[trigger] me[t]).len() == cols
                        && row_valid(me[t]) by {
                        if t == r {
                            assert(me[t] == nr);
                        } else {
                            assert(me[t] == row_sub_mul_s(ms[t], nr, ms[t][c]));
                            assert forall|j: int| 0 <= j < cols implies (#[trigger] me[t][j]).valid()
                            by {
                                K::axiom_mul(ms[t][c], nr[j]);
                                K::axiom_sub(ms[t][j], ms[t][c].spec_mul(nr[j]));
                            }
                        }
                    }
                }
                lemma_rref_keeps_zero_row(me, cols, r + 1, c + 1, z2);
                assert(rref_from_s(m, cols, r, c) == rref_from_s(me, cols, r + 1, c + 1));
                let z3 = choose|z3: int|
                    0 <= z3 < me.len() && is_zero_row_s(
                        #[trigger] rref_from_s(me, cols, r + 1, c + 1)[z3],
                    );
                assert(is_zero_row_s(rref_from_s(m, cols, r, c)[z3]));
            },
        }
    }
}

/// At most `k` of the first `k` rows are non-zero, and one fewer where one
/// of them is a zero row.
proof fn lemma_count_with_zero_row<K: Numeric>(m: Seq<Seq<K>>, k: int, z: int)
    requires
        0 <= z < k,
        is_zero_row_s(m[z]),
    ensures
        count_nonzero_rows_s(m, k) <= k - 1,
    decreases k,
{
    lemma_count_bound(m, k - 1);
    if z == k - 1 {
        assert(!row_nonzero_s(m[z]));
    } else {
        lemma_count_with_zero_row(m, k - 1, z);
    }
}

/// The count of non-zero rows never beats the number of rows counted.
proof fn lemma_count_bound<K: Numeric>(m: Seq<Seq<K>>, k: int)
    ensures
        count_nonzero_rows_s(m, k) <= if k <= 0 {
            0int
        } else {
            k
        },
    decreases k,
{
    if k > 0 {
        lemma_count_bound(m, k - 1);
    }
}

/// A matrix with an all-zero row falls short of full rank.
pub proof fn theorem_zero_row_rank<K: Numeric>(m: Seq<Seq<K>>, cols: int, z: int)
    requires
        0 <= cols,
        grid_rect(m, cols as nat),
        grid_valid(m),
        0 <= z < m.len(),
        is_zero_row_s(m[z]),
    ensures
        spec_rank(m, cols) < m.len(),
{
    lemma_rref_keeps_zero_row(m, cols, 0, 0, z);
    lemma_reduction_is_rref(m, cols);
    let w = spec_reduced_row_echelon(m, cols);
    let z2 = choose|z2: int| 0 <= z2 < m.len() && is_zero_row_s(#[trigger] w[z2]);
    lemma_count_with_zero_row(w, m.len() as int, z2);
}


/// Row `p` is the scalar multiple of row `q` by `w`, at distinct indices.
pub open spec fn rows_proportional_s<K: Numeric>(m: Seq<Seq<K>>, p: int, q: int, w: K) -> bool {
    &&& 0 <= p < m.len()
    &&& 0 <= q < m.len()
    &&& p != q
    &&& w.valid()
    &&& m[p] == row_scale_s(m[q], w)
}

/// A non-zero scaling keeps each entry's vanishing, so it keeps the leading
/// column search.
proof fn lemma_lead_of_scale<K: Numeric>(r: Seq<K>, w: K, j: int)
    requires
        row_valid(r),
        w.valid(),
        w != K::spec_zero(),
        0 <= j <= r.len(),
    ensures
        lead_of_s(row_scale_s(r, w), j) == lead_of_s(r, j),
    decreases r.len() - j,
{
    let sr = row_scale_s(r, w);
    if j < r.len() {
        assert(sr[j] == r[j].spec_mul(w));
        if r[j] == K::spec_zero() {
            lemma_mul_zero(w);
            assert(sr[j] == K::spec_zero());
            lemma_lead_of_scale(r, w, j + 1);
        } else {
            if sr[j] == K::spec_zero() {
                lemma_mul_integral(w, r[j]);
            }
            assert(sr[j] != K::spec_zero());
        }
    }
}

/// After each Gauss-Jordan state reached from a grid with two proportional
/// rows, either two rows are still proportional or a row has gone to zero.
proof fn lemma_rref_keeps_proportional<K: Numeric>(
    m: Seq<Seq<K>>,
    cols: int,
    r: int,
    c: int,
    p: int,
    q: int,
    w: K,
)
    requires
        0 <= cols,
        grid_rect(m, cols as nat),
        grid_valid(m),
        0 <= r <= m.len(),
        0 <= c <= cols,
        rows_proportional_s(m, p, q, w),
    ensures
        (exists|z2: int|
            0 <= z2 < m.len() && is_zero_row_s(#[trigger] rref_from_s(m, cols, r, c)[z2]))
        || (exists|p2: int, q2: int, w2: K|
            #[trigger] rows_proportional_s(rref_from_s(m, cols, r, c), p2, q2, w2)),
    decreases cols - c,
{
    let rows = m.len() as int;
    if r >= rows || c >= cols {
        assert(rows_proportional_s(rref_from_s(m, cols, r, c), p, q, w));
    } else {
        match find_pivot_s(m, c, r) {
            Option::None => {
                lemma_rref_keeps_proportional(m, cols, r, c + 1, p, q, w);
                if exists|z2: int|
                    0 <= z2 < m.len() && is_zero_row_s(
                        #[trigger] rref_from_s(m, cols, r, c + 1)[z2],
                    ) {
                    let z3 = choose|z3: int|
                        0 <= z3 < m.len() && is_zero_row_s(
                            #[trigger] rref_from_s(m, cols, r, c + 1)[z3],
                        );
                    assert(is_zero_row_s(rref_from_s(m, cols, r, c)[z3]));
                } else {
                    let (p3, q3, w3) = choose|p3: int, q3: int, w3: K|
                        #[trigger] rows_proportional_s(rref_from_s(m, cols, r, c + 1), p3, q3, w3);
                    assert(rows_proportional_s(rref_from_s(m, cols, r, c), p3, q3, w3));
                }
            },
            Option::Some(pv) => {
                lemma_find_pivot_some(m, c, r, pv);
                let ms = swap_rows_s(m, r, pv);
                // Track the pair through the swap.
                let p2: int = if p == r {
                    pv
                } else if p == pv {
                    r
                } else {
                    p
                };
                let q2: int = if q == r {
                    pv
                } else if q == pv {
                    r
                } else {
                    q
                };
                assert(ms[p2] == m[p] && ms[q2] == m[q]);
                assert(p2 != q2);
                assert(grid_rect(ms, cols as nat) && grid_valid(ms)) by {
                    assert forall|t: int| 0 <= t < rows implies (#[trigger] ms[t]).len() == cols
                        && row_valid(ms[t]) by {
                        assert(ms[t] == m[t] || ms[t] == m[r] || ms[t] == m[pv]);
                        assert(row_valid(m[t]) && row_valid(m[r]) && row_valid(m[pv]));
                    }
                }
                let d = ms[r][c];
                assert(d.valid() && d != K::spec_zero()) by {
                    assert(ms[r] == m[pv]);
                    assert(row_valid(m[pv]));
                }
                let nr = row_div_s(ms[r], d);
                let me = rref_elim_s(ms, r, c);
                assert(nr.len() == cols);
                assert(row_valid(nr)) by {
                    assert forall|j: int| 0 <= j < nr.len() implies (#[trigger] nr[j]).valid() by {
                        K::axiom_div(ms[r][j], d);
                    }
                }
                assert(me.len() == rows);
                assert(grid_rect(me, cols as nat) && grid_valid(me)) by {
                    assert forall|t: int| 0 <= t < rows implies (#[trigger] me[t]).len() == cols
                        && row_valid(me[t]) by {
                        if t == r {
                            assert(me[t] == nr);
                        } else {
                            assert(me[t] == row_sub_mul_s(ms[t], nr, ms[t][c]));
                            assert(row_valid(ms[t]));
                            assert forall|j: int| 0 <= j < cols implies (#[trigger] me[t][j]).valid()
                            by {
                                K::axiom_mul(ms[t][c], nr[j]);
                                K::axiom_sub(ms[t][j], ms[t][c].spec_mul(nr[j]));
                            }
                        }
                    }
                }
                let qrow = ms[q2];
                assert(row_valid(qrow) && qrow.len() == cols);
                assert(forall|j: int| 0 <= j < cols ==> #[trigger] ms[p2][j] == qrow[j].spec_mul(w));
                if q2 == r {
                    // The pivot is the base row: eliminating clears its
                    // multiple completely.
                    assert(p2 != r);
                    let f = ms[p2][c];
                    assert(f == d.spec_mul(w));
                    assert(me[p2] == row_sub_mul_s(ms[p2], nr, f));
                    assert(is_zero_row_s(me[p2])) by {
                        assert forall|j: int| 0 <= j < me[p2].len() implies me[p2][j]
                            == K::spec_zero() by {
                            assert(me[p2][j] == ms[p2][j].spec_sub(f.spec_mul(nr[j])));
                            assert(ms[p2][j] == qrow[j].spec_mul(w));
                            assert(nr[j] == qrow[j].spec_div(d));
                            K::axiom_div(qrow[j], d);
                            // (d * w) * (qrow[j] / d) == (qrow[j] / d * d) * w
                            let dj = qrow[j].spec_div(d);
                            K::axiom_mul(d, w);
                            K::axiom_mul_assoc(d, w, dj);
                            K::axiom_mul(w, dj);
                            K::axiom_mul_assoc(d, dj, w);
                            K::axiom_mul(d, dj);
                            K::axiom_mul(dj, d);
                            assert(f.spec_mul(nr[j]) == qrow[j].spec_mul(w));
                            lemma_sub_self(qrow[j].spec_mul(w));
                        }
                    }
                    lemma_rref_keeps_zero_row(me, cols, r + 1, c + 1, p2);
                    let z3 = choose|z3: int|
                        0 <= z3 < me.len() && is_zero_row_s(
                            #[trigger] rref_from_s(me, cols, r + 1, c + 1)[z3],
                        );
                    assert(is_zero_row_s(rref_from_s(m, cols, r, c)[z3]));
                } else if p2 == r {
                    // The pivot is the multiple: the base row is cleared.
                    assert(d == ms[q2][c].spec_mul(w));
                    let qc = ms[q2][c];
                    assert(qc.valid());
                    assert(qc != K::spec_zero() && w != K::spec_zero()) by {
                        lemma_mul_zero(w);
                        lemma_mul_zero(qc);
                        K::axiom_mul(qc, w);
                        if qc == K::spec_zero() {
                            assert(d == K::spec_zero());
                        }
                        if w == K::spec_zero() {
                            assert(d == K::spec_zero());
                        }
                    }
                    let f = ms[q2][c];
                    assert(me[q2] == row_sub_mul_s(ms[q2], nr, f));
                    assert(is_zero_row_s(me[q2])) by {
                        assert forall|j: int| 0 <= j < me[q2].len() implies me[q2][j]
                            == K::spec_zero() by {
                            assert(me[q2][j] == qrow[j].spec_sub(f.spec_mul(nr[j])));
                            assert(nr[j] == ms[r][j].spec_div(d));
                            assert(ms[r][j] == qrow[j].spec_mul(w));
                            // (qrow[j] * w) / (qc * w) == qrow[j] / qc
                            let x = qrow[j];
                            assert(x.valid());
                            K::axiom_div(x, qc);
                            let xq = x.spec_div(qc);
                            K::axiom_div(x.spec_mul(w), d);
                            // xq * (qc * w) == (xq * qc) * w == x * w
                            K::axiom_mul(qc, w);
                            K::axiom_mul_assoc(xq, qc, w);
                            K::axiom_mul(xq, qc);
                            K::axiom_mul(x, w);
                            lemma_mul_cancel(x.spec_mul(w).spec_div(d), xq, d);
                            assert(nr[j] == xq);
                            // qc * xq == xq * qc == x
                            K::axiom_mul(qc, xq);
                            assert(f.spec_mul(nr[j]) == x);
                            lemma_sub_self(x);
                        }
                    }
                    lemma_rref_keeps_zero_row(me, cols, r + 1, c + 1, q2);
                    let z3 = choose|z3: int|
                        0 <= z3 < me.len() && is_zero_row_s(
                            #[trigger] rref_from_s(me, cols, r + 1, c + 1)[z3],
                        );
                    assert(is_zero_row_s(rref_from_s(m, cols, r, c)[z3]));
                } else {
                    // The pivot is a third row: both rows change by aligned
                    // amounts and stay proportional.
                    let fq = ms[q2][c];
                    let fp = ms[p2][c];
                    assert(fp == fq.spec_mul(w));
                    assert(fq.valid() && fp.valid());
                    assert(me[p2] == row_sub_mul_s(ms[p2], nr, fp));
                    assert(me[q2] == row_sub_mul_s(ms[q2], nr, fq));
                    assert(me[p2] =~= row_scale_s(me[q2], w)) by {
                        assert forall|j: int| 0 <= j < cols implies me[p2][j] == me[q2][j].spec_mul(
                            w,
                        ) by {
                            assert(me[p2][j] == ms[p2][j].spec_sub(fp.spec_mul(nr[j])));
                            assert(me[q2][j] == qrow[j].spec_sub(fq.spec_mul(nr[j])));
                            assert(ms[p2][j] == qrow[j].spec_mul(w));
                            let nj = nr[j];
                            assert(nj.valid()) by {
                                K::axiom_div(ms[r][j], d);
                            }
                            // (fq * w) * nj == (fq * nj) * w
                            K::axiom_mul(fq, w);
                            K::axiom_mul_assoc(fq, w, nj);
                            K::axiom_mul(w, nj);
                            K::axiom_mul_assoc(fq, nj, w);
                            K::axiom_mul(fq, nj);
                            // (qrow[j] - fq * nj) * w == qrow[j] * w - (fq * nj) * w
                            lemma_sub_mul_distrib(qrow[j], fq.spec_mul(nj), w);
                        }
                    }
                    assert(rows_proportional_s(me, p2, q2, w));
                    lemma_rref_keeps_proportional(me, cols, r + 1, c + 1, p2, q2, w);
                    assert(rref_from_s(m, cols, r, c) == rref_from_s(me, cols, r + 1, c + 1));
                    if exists|z2: int|
                        0 <= z2 < me.len() && is_zero_row_s(
                            #[trigger] rref_from_s(me, cols, r + 1, c + 1)[z2],
                        ) {
                        let z3 = choose|z3: int|
                            0 <= z3 < me.len() && is_zero_row_s(
                                #[trigger] rref_from_s(me, cols, r + 1, c + 1)[z3],
                            );
                        assert(is_zero_row_s(rref_from_s(m, cols, r, c)[z3]));
                    } else {
                        let (p3, q3, w3) = choose|p3: int, q3: int, w3: K|
                            #[trigger] rows_proportional_s(
                                rref_from_s(me, cols, r + 1, c + 1),
                                p3,
                                q3,
                                w3,
                            );
                        assert(rows_proportional_s(rref_from_s(m, cols, r, c), p3, q3, w3));
                    }
                }
            },
        }
    }
}

/// In reduced row echelon form two distinct proportional rows force a zero
/// row: two non-zero rows would share a leading column.
proof fn lemma_rref_no_proportional<K: Numeric>(m: Seq<Seq<K>>, cols: int, p: int, q: int, w: K)
    requires
        0 <= cols,
        grid_rect(m, cols as nat),
        grid_valid(m),
        is_rref_s(m),
        rows_proportional_s(m, p, q, w),
    ensures
        exists|z2: int| 0 <= z2 < m.len() && is_zero_row_s(#[trigger] m[z2]),
{
    if is_zero_row_s(m[q]) {
        assert(0 <= q < m.len() && is_zero_row_s(m[q]));
    } else if w == K::spec_zero() {
        assert(is_zero_row_s(m[p])) by {
            assert forall|j: int| 0 <= j < m[p].len() implies m[p][j] == K::spec_zero() by {
                assert(m[p][j] == m[q][j].spec_mul(w));
                assert(row_valid(m[q]) && m[q].len() == cols);
                lemma_mul_zero(m[q][j]);
            }
        }
        assert(0 <= p < m.len() && is_zero_row_s(m[p]));
    } else {
        // Both rows non-zero with one leading column: impossible.
        assert(row_valid(m[q]) && m[q].len() == cols && m[p].len() == cols);
        lemma_lead_of_scale(m[q], w, 0);
        assert(lead_s(m[p]) == lead_s(m[q]));
        assert(!is_zero_row_s(m[p])) by {
            lemma_lead_zero_row(m[p]);
            lemma_lead_zero_row(m[q]);
        }
        if p < q {
            assert(lead_s(m[p]) < lead_s(m[q]));
        } else {
            assert(lead_s(m[q]) < lead_s(m[p]));
        }
        assert(false);
    }
}

/// A matrix holding two distinct proportional rows falls short of full rank.
pub proof fn theorem_proportional_rows_rank<K: Numeric>(
    m: Seq<Seq<K>>,
    cols: int,
    p: int,
    q: int,
    w: K,
)
    requires
        0 <= cols,
        grid_rect(m, cols as nat),
        grid_valid(m),
        rows_proportional_s(m, p, q, w),
    ensures
        spec_rank(m, cols) < m.len(),
{
    lemma_rref_keeps_proportional(m, cols, 0, 0, p, q, w);
    lemma_reduction_is_rref(m, cols);
    let wm = spec_reduced_row_echelon(m, cols);
    if exists|z2: int| 0 <= z2 < m.len() && is_zero_row_s(#[trigger] wm[z2]) {
        let z2 = choose|z2: int| 0 <= z2 < m.len() && is_zero_row_s(#[trigger] wm[z2]);
        lemma_count_with_zero_row(wm, m.len() as int, z2);
    } else {
        let (p2, q2, w2) = choose|p2: int, q2: int, w2: K|
            #[trigger] rows_proportional_s(spec_reduced_row_echelon(m, cols), p2, q2, w2);
        lemma_rref_no_proportional(wm, cols, p2, q2, w2);
        let z2 = choose|z2: int| 0 <= z2 < wm.len() && is_zero_row_s(#[trigger] wm[z2]);
        lemma_count_with_zero_row(wm, m.len() as int, z2);
    }
}


/// Forward elimination ends in row echelon form: from a state where the
/// first `r` rows are non-zero with strictly increasing leads below `c` and
/// every further row is zero left of `c`.
proof fn lemma_ref_from_props<K: Numeric>(m: Seq<Seq<K>>, cols: int, r: int, c: int)
    requires
        0 <= cols,
        grid_rect(m, cols as nat),
        grid_valid(m),
        0 <= r <= m.len(),
        0 <= c <= cols,
        forall|i: int| 0 <= i < r ==> !is_zero_row_s(#[trigger] m[i]) && lead_s(m[i]) < c,
        forall|i1: int, i2: int|
            0 <= i1 < i2 < r ==> lead_s(#[trigger] m[i1]) < lead_s(#[trigger] m[i2]),
        forall|i: int| r <= i < m.len() ==> lead_s(#[trigger] m[i]) >= c,
    ensures
        ref_from_s(m, cols, r, c).len() == m.len(),
        grid_rect(ref_from_s(m, cols, r, c), cols as nat),
        grid_valid(ref_from_s(m, cols, r, c)),
        is_echelon_s(ref_from_s(m, cols, r, c)),
    decreases cols - c,
{
    let rows = m.len() as int;
    if r >= rows || c >= cols {
        assert forall|i: int| r <= i < rows && c >= cols implies is_zero_row_s(#[trigger] m[i])
        by {
            assert(m[i].len() == cols);
            lemma_lead_of_bounds(m[i], 0);
            lemma_lead_zero_row(m[i]);
        }
        assert(is_echelon_s(m)) by {
            assert forall|i1: int, i2: int|
                0 <= i1 < i2 < rows && is_zero_row_s(#[trigger] m[i1]) implies is_zero_row_s(
                #[trigger] m[i2],
            ) by {
                assert(i1 >= r);
                assert(c >= cols);
            }
            assert forall|i1: int, i2: int|
                0 <= i1 < i2 < rows && !is_zero_row_s(#[trigger] m[i1]) && !is_zero_row_s(
                    #[trigger] m[i2],
                ) implies lead_s(m[i1]) < lead_s(m[i2]) by {
                if i2 >= r {
                    assert(c >= cols);
                    assert(is_zero_row_s(m[i2]));
                }
            }
        }
    } else {
        match find_pivot_s(m, c, r) {
            Option::None => {
                lemma_find_pivot_none_converse(m, c, r);
                assert forall|i: int| r <= i < rows implies lead_s(#[trigger] m[i]) >= c + 1 by {
                    assert(m[i][c] == K::spec_zero());
                    assert(m[i].len() == cols);
                    if lead_s(m[i]) == c {
                        lemma_lead_of_bounds(m[i], 0);
                    }
                }
                lemma_ref_from_props(m, cols, r, c + 1);
            },
            Option::Some(p) => {
                lemma_find_pivot_some(m, c, r, p);
                let ms = swap_rows_s(m, r, p);
                assert(ms.len() == rows);
                assert forall|t: int| 0 <= t < rows implies (#[trigger] ms[t]) == m[t] || ms[t]
                    == m[r] || ms[t] == m[p] by {}
                assert forall|t: int| 0 <= t < r implies (#[trigger] ms[t]) == m[t] by {}
                assert(grid_rect(ms, cols as nat) && grid_valid(ms)) by {
                    assert forall|t: int| 0 <= t < rows implies (#[trigger] ms[t]).len() == cols
                        && row_valid(ms[t]) by {
                        assert(ms[t] == m[t] || ms[t] == m[r] || ms[t] == m[p]);
                        assert(row_valid(m[t]) && row_valid(m[r]) && row_valid(m[p]));
                    }
                }
                assert(ms[r as int] == m[p]);
                assert(ms[r as int][c] != K::spec_zero());
                assert(lead_s(ms[r as int]) >= c);
                lemma_lead_of_bounds(ms[r as int], 0);
                assert forall|t: int| 0 <= t < c implies ms[r as int][t] == K::spec_zero() by {
                    if lead_s(ms[r as int]) > t {
                    }
                }
                lemma_lead_is(ms[r as int], c);
                assert forall|i: int| r <= i < rows implies lead_s(#[trigger] ms[i]) >= c by {
                    assert(ms[i] == m[i] || ms[i] == m[r] || ms[i] == m[p]);
                }
                let d = ms[r as int][c];
                assert(d.valid() && d != K::spec_zero());
                let me = ref_elim_s(ms, r, c);
                assert(me.len() == rows);
                assert forall|t: int| 0 <= t <= r implies (#[trigger] me[t]) == ms[t] by {}
                // Below the pivot: entries left of c kept, the entry at c
                // cleared by the exact quotient.
                assert forall|k: int| r < k < rows implies (#[trigger] me[k]).len() == cols && (
                forall|j: int| 0 <= j < c ==> #[trigger] me[k][j] == ms[k][j]) && me[k][c]
                    == K::spec_zero() && row_valid(me[k]) by {
                    let f = ms[k][c].spec_div(d);
                    assert(me[k] == row_sub_mul_s(ms[k], ms[r as int], f));
                    assert(ms[k].len() == cols && row_valid(ms[k]));
                    assert(f.valid()) by {
                        K::axiom_div(ms[k][c], d);
                    }
                    assert forall|j: int| 0 <= j < cols implies (#[trigger] me[k][j])
                        == ms[k][j].spec_sub(f.spec_mul(ms[r as int][j])) && me[k][j].valid() by {
                        K::axiom_mul(f, ms[r as int][j]);
                        K::axiom_sub(ms[k][j], f.spec_mul(ms[r as int][j]));
                    }
                    assert forall|j: int| 0 <= j < c implies #[trigger] me[k][j] == ms[k][j] by {
                        assert(ms[r as int][j] == K::spec_zero());
                        lemma_mul_zero(f);
                        lemma_sub_zero(ms[k][j]);
                    }
                    assert(me[k][c] == K::spec_zero()) by {
                        // ms[k][c] - (ms[k][c] / d) * d == 0
                        K::axiom_div(ms[k][c], d);
                        lemma_sub_self(ms[k][c]);
                    }
                }
                assert(grid_rect(me, cols as nat) && grid_valid(me)) by {
                    assert forall|t: int| 0 <= t < rows implies (#[trigger] me[t]).len() == cols
                        && row_valid(me[t]) by {
                        if t <= r {
                            assert(me[t] == ms[t]);
                        }
                    }
                }
                assert forall|i: int| 0 <= i < r + 1 implies !is_zero_row_s(#[trigger] me[i])
                    && lead_s(me[i]) < c + 1 by {
                    assert(me[i] == ms[i]);
                    if i < r {
                        assert(ms[i] == m[i]);
                    } else {
                        assert(lead_s(ms[r as int]) == c);
                    }
                }
                assert forall|i1: int, i2: int| 0 <= i1 < i2 < r + 1 implies lead_s(
                    #[trigger] me[i1],
                ) < lead_s(#[trigger] me[i2]) by {
                    assert(me[i1] == ms[i1] && me[i2] == ms[i2]);
                    if i2 == r {
                        assert(ms[i1] == m[i1]);
                        assert(lead_s(m[i1]) < c);
                        assert(lead_s(ms[i2]) == c);
                    } else {
                        assert(ms[i1] == m[i1] && ms[i2] == m[i2]);
                    }
                }
                assert forall|i: int| r + 1 <= i < rows implies lead_s(#[trigger] me[i]) >= c + 1
                by {
                    assert(me[i].len() == cols);
                    assert forall|t: int| 0 <= t < c + 1 implies #[trigger] me[i][t]
                        == K::spec_zero() by {
                        if t < c {
                            assert(me[i][t] == ms[i][t]);
                            assert(lead_s(ms[i]) >= c);
                            lemma_lead_of_bounds(ms[i], 0);
                        }
                    }
                    lemma_lead_at_least(me[i], c + 1);
                }
                lemma_ref_from_props(me, cols, r + 1, c + 1);
                assert(ref_from_s(m, cols, r, c) == ref_from_s(me, cols, r + 1, c + 1));
            },
        }
    }
}

/// Forward elimination lands in row echelon form, whatever the start.
pub proof fn lemma_forward_is_echelon<K: Numeric>(m: Seq<Seq<K>>, cols: int)
    requires
        0 <= cols,
        grid_rect(m, cols as nat),
        grid_valid(m),
    ensures
        spec_row_echelon(m, cols).len() == m.len(),
        grid_rect(spec_row_echelon(m, cols), cols as nat),
        grid_valid(spec_row_echelon(m, cols)),
        is_echelon_s(spec_row_echelon(m, cols)),
{
    assert forall|i: int| 0 <= i < m.len() implies lead_s(#[trigger] m[i]) >= 0 by {
        assert(m[i].len() == cols);
        lemma_lead_of_bounds(m[i], 0);
    }
    lemma_ref_from_props(m, cols, 0, 0);
}

} // verus!
