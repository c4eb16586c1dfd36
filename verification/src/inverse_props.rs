use vstd::prelude::*;
use crate::numeric::Numeric;
use crate::matrix::{grid_rect, grid_valid, row_scale_s, row_valid};
use crate::field::{lemma_add_mul_distrib, lemma_add_sub_cancel,
    lemma_add_sub_restore, lemma_div_add, lemma_div_mul_assoc, lemma_mul_integral, lemma_mul_sub,
    lemma_mul_zero, lemma_sub_add_exchange, lemma_sub_mul_distrib, lemma_sub_opposites,
    lemma_sub_self, lemma_sub_zero, lemma_zero_div};
use crate::row_echelon_form::{find_pivot_s, row_div_s, row_sub_mul_s, rref_elim_s, rref_from_s,
    spec_reduced_row_echelon, swap_rows_s};
use crate::inverse::{augment_s, back_pass_s, right_half_s, spec_inverse};
use crate::matrix_multiplication::mat_mul_entry_s;
use crate::product_props::sum_s;
use crate::echelon_props::{identity_s, is_rref_s, is_zero_row_s, lead_s, lemma_back_pass_fixed,
    lemma_find_pivot_some, lemma_lead_of_bounds, lemma_reduction_is_rref, rows_proportional_s};
use crate::error::MatrixError;

verus! {

// What Gauss-Jordan elimination on an augmented matrix preserves: each row's
// left block is the combination of the rows of the original matrix that the
// row's right block spells out. The inverse law rests on this.

/// The combination of the first `k` rows of `a` weighted by the right block
/// of the augmented row `r`, read at column `j`.
pub open spec fn rowlin_s<K: Numeric>(r: Seq<K>, a: Seq<Seq<K>>, j: int, k: int) -> K
    decreases k,
{
    if k <= 0 {
        K::spec_zero()
    } else {
        rowlin_s(r, a, j, k - 1).spec_add(r[a.len() + k - 1].spec_mul(a[k - 1][j]))
    }
}

/// Partial combinations of scalars are scalars.
proof fn lemma_rowlin_valid<K: Numeric>(r: Seq<K>, a: Seq<Seq<K>>, j: int, k: int)
    requires
        row_valid(r),
        grid_valid(a),
        grid_rect(a, a.len() as nat),
        r.len() == 2 * a.len(),
        0 <= j < a.len(),
        k <= a.len(),
    ensures
        rowlin_s(r, a, j, k).valid(),
    decreases k,
{
    K::axiom_identities();
    if k > 0 {
        lemma_rowlin_valid(r, a, j, k - 1);
        assert(row_valid(a[k - 1]));
        K::axiom_mul(r[a.len() + k - 1], a[k - 1][j]);
        K::axiom_add(rowlin_s(r, a, j, k - 1), r[a.len() + k - 1].spec_mul(a[k - 1][j]));
    }
}

/// Dividing a row divides its combination.
proof fn lemma_rowlin_div<K: Numeric>(r: Seq<K>, a: Seq<Seq<K>>, d: K, j: int, k: int)
    requires
        row_valid(r),
        grid_valid(a),
        grid_rect(a, a.len() as nat),
        r.len() == 2 * a.len(),
        d.valid(),
        d != K::spec_zero(),
        0 <= j < a.len(),
        k <= a.len(),
    ensures
        rowlin_s(row_div_s(r, d), a, j, k) == rowlin_s(r, a, j, k).spec_div(d),
    decreases k,
{
    K::axiom_identities();
    if k <= 0 {
        lemma_zero_div::<K>(d);
    } else {
        lemma_rowlin_div(r, a, d, j, k - 1);
        lemma_rowlin_valid(r, a, j, k - 1);
        let x = r[a.len() + k - 1];
        let y = a[k - 1][j];
        assert(row_valid(a[k - 1]));
        assert(x.valid() && y.valid());
        assert(row_div_s(r, d)[a.len() + k - 1] == x.spec_div(d));
        // (x / d) * y == (x * y) / d, then the sum folds through division.
        lemma_div_mul_assoc(x, y, d);
        K::axiom_mul(x, y);
        lemma_div_add(rowlin_s(r, a, j, k - 1), x.spec_mul(y), d);
    }
}

/// Subtracting a multiple of one row subtracts that multiple of its
/// combination.
proof fn lemma_rowlin_sub_mul<K: Numeric>(t: Seq<K>, s: Seq<K>, a: Seq<Seq<K>>, f: K, j: int, k: int)
    requires
        row_valid(t),
        row_valid(s),
        grid_valid(a),
        grid_rect(a, a.len() as nat),
        t.len() == 2 * a.len(),
        s.len() == 2 * a.len(),
        f.valid(),
        0 <= j < a.len(),
        k <= a.len(),
    ensures
        rowlin_s(row_sub_mul_s(t, s, f), a, j, k) == rowlin_s(t, a, j, k).spec_sub(
            f.spec_mul(rowlin_s(s, a, j, k)),
        ),
    decreases k,
{
    K::axiom_identities();
    if k <= 0 {
        lemma_mul_zero(f);
        lemma_sub_zero(K::spec_zero());
    } else {
        lemma_rowlin_sub_mul(t, s, a, f, j, k - 1);
        lemma_rowlin_valid(t, a, j, k - 1);
        lemma_rowlin_valid(s, a, j, k - 1);
        let tp = rowlin_s(t, a, j, k - 1);
        let sp = rowlin_s(s, a, j, k - 1);
        let tx = t[a.len() + k - 1];
        let sx = s[a.len() + k - 1];
        let y = a[k - 1][j];
        assert(row_valid(a[k - 1]));
        assert(tx.valid() && sx.valid() && y.valid());
        assert(row_sub_mul_s(t, s, f)[a.len() + k - 1] == tx.spec_sub(f.spec_mul(sx)));
        // The new term: (tx - f * sx) * y == tx * y - f * (sx * y).
        K::axiom_mul(f, sx);
        lemma_sub_mul_distrib(tx, f.spec_mul(sx), y);
        K::axiom_mul_assoc(f, sx, y);
        K::axiom_mul(sx, y);
        K::axiom_mul(tx, y);
        K::axiom_mul(f, sx.spec_mul(y));
        // Regroup the sum of two differences.
        K::axiom_mul(f, sp);
        lemma_sub_add_exchange(
            tp,
            f.spec_mul(sp),
            tx.spec_mul(y),
            f.spec_mul(sx.spec_mul(y)),
        );
        // f * sp + f * (sx * y) == f * (sp + sx * y).
        K::axiom_distrib(f, sp, sx.spec_mul(y));
    }
}

/// In the freshly augmented matrix each row's combination is its own row of
/// the original: the right block starts as the identity.
proof fn lemma_rowlin_augment<K: Numeric>(a: Seq<Seq<K>>, i: int, j: int, k: int)
    requires
        grid_valid(a),
        grid_rect(a, a.len() as nat),
        0 <= i < a.len(),
        0 <= j < a.len(),
        0 <= k <= a.len(),
    ensures
        rowlin_s(augment_s(a)[i], a, j, k) == if i < k {
            a[i][j]
        } else {
            K::spec_zero()
        },
    decreases k,
{
    K::axiom_identities();
    if k > 0 {
        lemma_rowlin_augment(a, i, j, k - 1);
        let g = augment_s(a)[i];
        let y = a[k - 1][j];
        assert(row_valid(a[k - 1]));
        assert(y.valid());
        let prev = rowlin_s(g, a, j, k - 1);
        if k - 1 == i {
            assert(g[a.len() + k - 1] == K::spec_one());
            assert(prev == K::spec_zero());
            K::axiom_mul(y, K::spec_one());
            K::axiom_mul(K::spec_one(), y);
            K::axiom_add(y, K::spec_zero());
            K::axiom_add(K::spec_zero(), y);
        } else {
            assert(g[a.len() + k - 1] == K::spec_zero());
            lemma_mul_zero(y);
            if i < k - 1 {
                assert(row_valid(a[i]));
                K::axiom_add(a[i][j], K::spec_zero());
            } else {
                K::axiom_add(K::spec_zero(), K::spec_zero());
            }
        }
    }
}

/// The product of the right block with the original, entry by entry, is the
/// combination that the augmented row spells out.
proof fn lemma_rowlin_right_half<K: Numeric>(g: Seq<Seq<K>>, a: Seq<Seq<K>>, i: int, j: int, k: int)
    requires
        0 <= i < g.len(),
        k <= a.len(),
    ensures
        mat_mul_entry_s(right_half_s(g, a.len() as int), a, i, j, k) == rowlin_s(g[i], a, j, k),
    decreases k,
{
    if k > 0 {
        lemma_rowlin_right_half(g, a, i, j, k - 1);
        assert(right_half_s(g, a.len() as int)[i][k - 1] == g[i][a.len() + k - 1]);
    }
}


/// The invariant of elimination on an augmented matrix: every row's left
/// block is the combination of the rows of `a` that its right block names.
pub open spec fn tracks_s<K: Numeric>(g: Seq<Seq<K>>, a: Seq<Seq<K>>) -> bool {
    &&& g.len() == a.len()
    &&& forall|i: int, j: int|
        0 <= i < g.len() && 0 <= j < a.len() ==> #[trigger] g[i][j] == rowlin_s(
            g[i],
            a,
            j,
            a.len() as int,
        )
}

/// Gauss-Jordan elimination preserves the tracking invariant, from any
/// position on.
proof fn lemma_rref_tracks<K: Numeric>(g: Seq<Seq<K>>, a: Seq<Seq<K>>, r: int, c: int)
    requires
        grid_rect(a, a.len() as nat),
        grid_valid(a),
        g.len() == a.len(),
        grid_rect(g, (2 * a.len()) as nat),
        grid_valid(g),
        tracks_s(g, a),
        0 <= r <= g.len(),
        0 <= c <= 2 * a.len(),
    ensures
        tracks_s(rref_from_s(g, 2 * a.len() as int, r, c), a),
    decreases 2 * a.len() - c,
{
    let n = a.len() as int;
    let cols = 2 * n;
    let rows = g.len() as int;
    if r >= rows || c >= cols {
    } else {
        match find_pivot_s(g, c, r) {
            Option::None => {
                lemma_rref_tracks(g, a, r, c + 1);
            },
            Option::Some(p) => {
                lemma_find_pivot_some(g, c, r, p);
                let ms = swap_rows_s(g, r, p);
                assert(ms.len() == rows);
                assert forall|t: int| 0 <= t < rows implies (#[trigger] ms[t]) == g[t] || ms[t]
                    == g[r] || ms[t] == g[p] by {}
                assert(grid_rect(ms, cols as nat) && grid_valid(ms)) by {
                    assert forall|t: int| 0 <= t < rows implies (#[trigger] ms[t]).len() == cols
                        && row_valid(ms[t]) by {
                        assert(ms[t] == g[t] || ms[t] == g[r] || ms[t] == g[p]);
                        assert(row_valid(g[t]) && row_valid(g[r]) && row_valid(g[p]));
                    }
                }
                assert(tracks_s(ms, a)) by {
                    assert forall|i: int, j: int|
                        0 <= i < rows && 0 <= j < n implies #[trigger] ms[i][j] == rowlin_s(
                        ms[i],
                        a,
                        j,
                        n,
                    ) by {
                        assert(ms[i] == g[i] || ms[i] == g[r] || ms[i] == g[p]);
                        assert(g[i][j] == rowlin_s(g[i], a, j, n));
                        assert(g[r][j] == rowlin_s(g[r], a, j, n));
                        assert(g[p][j] == rowlin_s(g[p], a, j, n));
                    }
                }
                let d = ms[r][c];
                assert(d.valid() && d != K::spec_zero()) by {
                    assert(ms[r] == g[p]);
                    assert(row_valid(g[p]));
                }
                let nr = row_div_s(ms[r], d);
                let me = rref_elim_s(ms, r, c);
                assert(nr.len() == cols);
                assert(row_valid(nr)) by {
                    assert forall|j: int| 0 <= j < nr.len() implies (#[trigger] nr[j]).valid() by {
                        K::axiom_div(ms[r][j], d);
                    }
                }
                // The normalized pivot row still tracks.
                assert forall|j: int| 0 <= j < n implies #[trigger] nr[j] == rowlin_s(
                    nr,
                    a,
                    j,
                    n,
                ) by {
                    lemma_rowlin_div(ms[r], a, d, j, n);
                    assert(ms[r][j] == rowlin_s(ms[r], a, j, n));
                }
                // The eliminated rows still track.
                assert(me.len() == rows);
                assert(me[r] == nr);
                assert forall|k: int| 0 <= k < rows && k != r implies (#[trigger] me[k]).len()
                    == cols && row_valid(me[k]) by {
                    let f = ms[k][c];
                    assert(me[k] == row_sub_mul_s(ms[k], nr, f));
                    assert(f.valid()) by {
                        assert(row_valid(ms[k]));
                    }
                    assert forall|j: int| 0 <= j < cols implies (#[trigger] me[k][j]).valid() by {
                        assert(row_valid(ms[k]));
                        K::axiom_mul(f, nr[j]);
                        K::axiom_sub(ms[k][j], f.spec_mul(nr[j]));
                    }
                }
                assert(grid_rect(me, cols as nat) && grid_valid(me)) by {
                    assert forall|t: int| 0 <= t < rows implies (#[trigger] me[t]).len() == cols
                        && row_valid(me[t]) by {
                        if t == r {
                            assert(me[t] == nr);
                        }
                    }
                }
                assert(tracks_s(me, a)) by {
                    assert forall|i: int, j: int|
                        0 <= i < rows && 0 <= j < n implies #[trigger] me[i][j] == rowlin_s(
                        me[i],
                        a,
                        j,
                        n,
                    ) by {
                        if i == r {
                            assert(me[i] == nr);
                        } else {
                            let f = ms[i][c];
                            assert(me[i] == row_sub_mul_s(ms[i], nr, f));
                            assert(f.valid() && row_valid(ms[i])) by {
                                assert(row_valid(ms[i]));
                            }
                            lemma_rowlin_sub_mul(ms[i], nr, a, f, j, n);
                            assert(ms[i][j] == rowlin_s(ms[i], a, j, n));
                            assert(nr[j] == rowlin_s(nr, a, j, n));
                            assert(me[i][j] == ms[i][j].spec_sub(f.spec_mul(nr[j])));
                        }
                    }
                }
                lemma_rref_tracks(me, a, r + 1, c + 1);
                assert(rref_from_s(g, cols, r, c) == rref_from_s(me, cols, r + 1, c + 1));
            },
        }
    }
}

/// The freshly augmented matrix `[a | I]` is well-formed and tracks.
proof fn lemma_augment_tracks<K: Numeric>(a: Seq<Seq<K>>)
    requires
        grid_rect(a, a.len() as nat),
        grid_valid(a),
    ensures
        augment_s(a).len() == a.len(),
        grid_rect(augment_s(a), (2 * a.len()) as nat),
        grid_valid(augment_s(a)),
        tracks_s(augment_s(a), a),
{
    let g = augment_s(a);
    let n = a.len() as int;
    K::axiom_identities();
    assert forall|i: int| 0 <= i < n implies (#[trigger] g[i]).len() == 2 * n && row_valid(
        g[i],
    ) by {
        assert forall|j: int| 0 <= j < g[i].len() implies (#[trigger] g[i][j]).valid() by {
            if j < n {
                assert(g[i][j] == a[i][j]);
                assert(row_valid(a[i]));
            }
        }
    }
    assert forall|i: int, j: int| 0 <= i < n && 0 <= j < n implies #[trigger] g[i][j] == rowlin_s(
        g[i],
        a,
        j,
        n,
    ) by {
        lemma_rowlin_augment(a, i, j, n);
        assert(g[i][j] == a[i][j]);
    }
}

/// Rows of a reduced grid lead no earlier than their own index.
proof fn lemma_leads_at_least_index<K: Numeric>(g: Seq<Seq<K>>, i: int)
    requires
        is_rref_s(g),
        0 <= i < g.len(),
        forall|t: int| 0 <= t < g.len() ==> !is_zero_row_s(#[trigger] g[t]),
    ensures
        lead_s(g[i]) >= i,
    decreases i,
{
    lemma_lead_of_bounds(g[i], 0);
    if i > 0 {
        lemma_leads_at_least_index(g, i - 1);
        assert(lead_s(g[i - 1]) < lead_s(g[i]));
    }
}

/// Where full reduction of a square-rooted augmented grid leaves no zero on
/// the left diagonal, the whole left block is the identity.
proof fn lemma_left_identity<K: Numeric>(g: Seq<Seq<K>>, n: int)
    requires
        is_rref_s(g),
        g.len() == n,
        0 <= n,
        grid_rect(g, (2 * n) as nat),
        forall|i: int| 0 <= i < n ==> #[trigger] g[i][i] != K::spec_zero(),
    ensures
        forall|i: int, j: int|
            0 <= i < n && 0 <= j < n ==> #[trigger] g[i][j] == if i == j {
                K::spec_one()
            } else {
                K::spec_zero()
            },
{
    // Every row is non-zero and leads at most at its diagonal.
    assert forall|i: int| 0 <= i < n implies !is_zero_row_s(#[trigger] g[i]) && lead_s(g[i]) <= i
    by {
        assert(g[i].len() == 2 * n);
        lemma_lead_of_bounds(g[i], 0);
        if lead_s(g[i]) > i {
            assert(g[i][i] == K::spec_zero());
        }
        if lead_s(g[i]) == g[i].len() {
            assert(g[i][i] == K::spec_zero());
        }
        assert(lead_s(g[i]) < g[i].len());
        crate::echelon_props::lemma_lead_zero_row(g[i]);
    }
    // Strictly increasing and bounded by the index pins each lead to it.
    assert forall|i: int| 0 <= i < n implies lead_s(#[trigger] g[i]) == i by {
        lemma_leads_at_least_index(g, i);
    }
    assert forall|i: int, j: int|
        0 <= i < n && 0 <= j < n implies #[trigger] g[i][j] == if i == j {
            K::spec_one()
        } else {
            K::spec_zero()
        } by {
        if i == j {
            assert(g[i][lead_s(g[i])] == K::spec_one());
        } else {
            assert(lead_s(g[j]) == j);
            assert(g[i][lead_s(g[j])] == K::spec_zero());
        }
    }
}

/// The product of two square grids of one size, as a grid.
pub open spec fn mat_product_s<K: Numeric>(x: Seq<Seq<K>>, y: Seq<Seq<K>>, n: int) -> Seq<Seq<K>> {
    Seq::new(n as nat, |i: int| Seq::new(n as nat, |j: int| mat_mul_entry_s(x, y, i, j, n)))
}

/// The inverse law: whenever `inverse` succeeds, the matrix it returns
/// multiplies the original back to the identity (the inverse on the left).
pub proof fn theorem_inverse_multiplies_to_identity<K: Numeric>(
    a: Seq<Seq<K>>,
    cols: int,
    b: Seq<Seq<K>>,
)
    requires
        grid_rect(a, cols as nat),
        grid_valid(a),
        0 <= cols,
        spec_inverse(a, cols) == Result::<Seq<Seq<K>>, MatrixError>::Ok(b),
    ensures
        b.len() == a.len(),
        grid_rect(b, a.len() as nat),
        grid_valid(b),
        mat_product_s(b, a, a.len() as int) == identity_s::<K>(a.len() as nat),
{
    let n = a.len() as int;
    assert(n == cols);
    let g0 = augment_s(a);
    let aug = spec_reduced_row_echelon(g0, 2 * n);
    lemma_augment_tracks(a);
    lemma_rref_tracks(g0, a, 0, 0);
    lemma_reduction_is_rref(g0, 2 * n);
    assert(tracks_s(aug, a));
    assert(is_rref_s(aug));
    assert(aug.len() == n && grid_rect(aug, (2 * n) as nat) && grid_valid(aug));
    assert forall|i: int| 0 <= i < n implies #[trigger] aug[i][i] != K::spec_zero() by {
        assert(!(exists|i2: int| 0 <= i2 < n && #[trigger] aug[i2][i2] == K::spec_zero()));
    }
    lemma_left_identity(aug, n);
    // With the left block the identity, the backward sweep finds only zero
    // factors and leaves everything alone.
    if n > 0 {
        assert forall|i2: int, k: int| 0 <= k < i2 <= n - 1 implies #[trigger] aug[k][i2]
            == K::spec_zero() by {}
        lemma_back_pass_fixed(aug, (2 * n) as nat, n - 1);
    }
    assert(back_pass_s(aug, n - 1) == aug);
    assert(b == right_half_s(aug, n));
    assert(b.len() == n);
    assert forall|i: int| 0 <= i < n implies (#[trigger] b[i]).len() == n && row_valid(b[i]) by {
        assert forall|u: int| 0 <= u < n implies (#[trigger] b[i][u]).valid() by {
            assert(b[i][u] == aug[i][n + u]);
            assert(row_valid(aug[i]));
        }
    }
    // The tracking invariant, read at the reduced state, is the product law.
    K::axiom_identities();
    assert forall|i: int, j: int|
        0 <= i < n && 0 <= j < n implies mat_mul_entry_s(b, a, i, j, n) == identity_s::<K>(
        a.len() as nat,
    )[i][j] by {
        lemma_rowlin_right_half(aug, a, i, j, n);
        assert(aug[i][j] == rowlin_s(aug[i], a, j, n));
        assert(aug[i][j] == if i == j {
            K::spec_one()
        } else {
            K::spec_zero()
        });
    }
    let prod = mat_product_s(b, a, n);
    let idm = identity_s::<K>(a.len() as nat);
    assert forall|i: int| 0 <= i < n implies prod[i] == idm[i] by {
        assert forall|j: int| 0 <= j < n implies prod[i][j] == idm[i][j] by {
            assert(prod[i][j] == mat_mul_entry_s(b, a, i, j, n));
        }
        assert(prod[i] =~= idm[i]);
    }
    assert(prod =~= idm);
}


/// The weighted sum of the entries in column `j` of the first `k` rows.
pub open spec fn colsum_s<K: Numeric>(lam: Seq<K>, g: Seq<Seq<K>>, j: int, k: int) -> K
    decreases k,
{
    if k <= 0 {
        K::spec_zero()
    } else {
        colsum_s(lam, g, j, k - 1).spec_add(lam[k - 1].spec_mul(g[k - 1][j]))
    }
}

/// Weighted sums of scalars are scalars.
proof fn lemma_colsum_valid<K: Numeric>(lam: Seq<K>, g: Seq<Seq<K>>, j: int, k: int)
    requires
        forall|t: int| 0 <= t < k ==> (#[trigger] lam[t]).valid(),
        forall|t: int| 0 <= t < k ==> (#[trigger] g[t][j]).valid(),
    ensures
        colsum_s(lam, g, j, k).valid(),
    decreases k,
{
    K::axiom_identities();
    if k > 0 {
        lemma_colsum_valid(lam, g, j, k - 1);
        K::axiom_mul(lam[k - 1], g[k - 1][j]);
        K::axiom_add(colsum_s(lam, g, j, k - 1), lam[k - 1].spec_mul(g[k - 1][j]));
    }
}

/// Two weighted sums with equal terms are equal.
proof fn lemma_colsum_termwise<K: Numeric>(
    lam1: Seq<K>,
    g1: Seq<Seq<K>>,
    j1: int,
    lam2: Seq<K>,
    g2: Seq<Seq<K>>,
    j2: int,
    k: int,
)
    requires
        forall|t: int|
            0 <= t < k ==> #[trigger] lam1[t].spec_mul(g1[t][j1]) == lam2[t].spec_mul(g2[t][j2]),
    ensures
        colsum_s(lam1, g1, j1, k) == colsum_s(lam2, g2, j2, k),
    decreases k,
{
    if k > 0 {
        lemma_colsum_termwise(lam1, g1, j1, lam2, g2, j2, k - 1);
    }
}

/// A sum weighted by nothing but zero is zero.
proof fn lemma_colsum_zero<K: Numeric>(lam: Seq<K>, g: Seq<Seq<K>>, j: int, k: int)
    requires
        forall|t: int| 0 <= t < k ==> #[trigger] lam[t] == K::spec_zero(),
        forall|t: int| 0 <= t < k ==> (#[trigger] g[t][j]).valid(),
    ensures
        colsum_s(lam, g, j, k) == K::spec_zero(),
    decreases k,
{
    K::axiom_identities();
    if k > 0 {
        lemma_colsum_zero(lam, g, j, k - 1);
        lemma_mul_zero(g[k - 1][j]);
        K::axiom_add(K::spec_zero(), K::spec_zero());
    }
}

/// Changing one weight shifts the sum by the weighted difference.
proof fn lemma_colsum_update_lam<K: Numeric>(
    lam: Seq<K>,
    g: Seq<Seq<K>>,
    i: int,
    x: K,
    j: int,
    k: int,
)
    requires
        0 <= i < k,
        k <= lam.len(),
        x.valid(),
        forall|t: int| 0 <= t < k ==> (#[trigger] lam[t]).valid(),
        forall|t: int| 0 <= t < k ==> (#[trigger] g[t][j]).valid(),
    ensures
        colsum_s(lam.update(i, x), g, j, k) == colsum_s(lam, g, j, k).spec_add(
            x.spec_sub(lam[i]).spec_mul(g[i][j]),
        ),
    decreases k,
{
    K::axiom_identities();
    let lam2 = lam.update(i, x);
    let gij = g[i][j];
    let s1 = colsum_s(lam, g, j, k - 1);
    let delta = x.spec_sub(lam[i]).spec_mul(gij);
    assert(delta.valid() && x.spec_sub(lam[i]).valid()) by {
        K::axiom_sub(x, lam[i]);
        K::axiom_mul(x.spec_sub(lam[i]), gij);
    }
    if k - 1 == i {
        assert(colsum_s(lam2, g, j, k - 1) == s1) by {
            assert forall|t: int| 0 <= t < k - 1 implies #[trigger] lam2[t].spec_mul(g[t][j])
                == lam[t].spec_mul(g[t][j]) by {}
            lemma_colsum_termwise(lam2, g, j, lam, g, j, k - 1);
        }
        // s1 + x * gij == (s1 + lam[i] * gij) + (x - lam[i]) * gij
        lemma_sub_mul_distrib(x, lam[i], gij);
        let xg = x.spec_mul(gij);
        let lg = lam[i].spec_mul(gij);
        assert(xg.valid() && lg.valid()) by {
            K::axiom_mul(x, gij);
            K::axiom_mul(lam[i], gij);
        }
        lemma_colsum_valid(lam, g, j, k - 1);
        // s1 + xg == (s1 + lg) + (xg - lg)
        assert(lg.spec_add(xg.spec_sub(lg)) == xg) by {
            lemma_add_sub_restore(lg, xg);
        }
        K::axiom_add_assoc(s1, lg, xg.spec_sub(lg));
        assert(xg.spec_sub(lg).valid()) by {
            K::axiom_sub(xg, lg);
        }
    } else {
        lemma_colsum_update_lam(lam, g, i, x, j, k - 1);
        let s1p = colsum_s(lam2, g, j, k - 1);
        let term = lam[k - 1].spec_mul(g[k - 1][j]);
        assert(lam2[k - 1] == lam[k - 1]);
        assert(term.valid()) by {
            K::axiom_mul(lam[k - 1], g[k - 1][j]);
        }
        lemma_colsum_valid(lam, g, j, k - 1);
        // (s1 + delta) + term == (s1 + term) + delta
        K::axiom_add_assoc(s1, delta, term);
        K::axiom_add(delta, term);
        K::axiom_add_assoc(s1, term, delta);
    }
}

/// Changing one row shifts the sum by the weighted difference.
proof fn lemma_colsum_update_g<K: Numeric>(
    lam: Seq<K>,
    g: Seq<Seq<K>>,
    i: int,
    row: Seq<K>,
    j: int,
    k: int,
)
    requires
        0 <= i < k,
        k <= g.len(),
        0 <= j,
        j < row.len(),
        row[j].valid(),
        forall|t: int| 0 <= t < k ==> (#[trigger] lam[t]).valid(),
        forall|t: int| 0 <= t < k ==> (#[trigger] g[t][j]).valid(),
    ensures
        colsum_s(lam, g.update(i, row), j, k) == colsum_s(lam, g, j, k).spec_add(
            lam[i].spec_mul(row[j].spec_sub(g[i][j])),
        ),
    decreases k,
{
    K::axiom_identities();
    let g2 = g.update(i, row);
    let gij = g[i][j];
    let s1 = colsum_s(lam, g, j, k - 1);
    let delta = lam[i].spec_mul(row[j].spec_sub(gij));
    assert(delta.valid() && row[j].spec_sub(gij).valid()) by {
        K::axiom_sub(row[j], gij);
        K::axiom_mul(lam[i], row[j].spec_sub(gij));
    }
    if k - 1 == i {
        assert(colsum_s(lam, g2, j, k - 1) == s1) by {
            assert forall|t: int| 0 <= t < k - 1 implies #[trigger] lam[t].spec_mul(g2[t][j])
                == lam[t].spec_mul(g[t][j]) by {}
            lemma_colsum_termwise(lam, g2, j, lam, g, j, k - 1);
        }
        // s1 + lam_i * row_j == (s1 + lam_i * gij) + lam_i * (row_j - gij)
        lemma_mul_sub(lam[i], row[j], gij);
        let xg = lam[i].spec_mul(row[j]);
        let lg = lam[i].spec_mul(gij);
        assert(xg.valid() && lg.valid()) by {
            K::axiom_mul(lam[i], row[j]);
            K::axiom_mul(lam[i], gij);
        }
        lemma_colsum_valid(lam, g, j, k - 1);
        assert(lg.spec_add(xg.spec_sub(lg)) == xg) by {
            lemma_add_sub_restore(lg, xg);
        }
        K::axiom_add_assoc(s1, lg, xg.spec_sub(lg));
        assert(xg.spec_sub(lg).valid()) by {
            K::axiom_sub(xg, lg);
        }
    } else {
        lemma_colsum_update_g(lam, g, i, row, j, k - 1);
        let term = lam[k - 1].spec_mul(g[k - 1][j]);
        assert(g2[k - 1] == g[k - 1]);
        assert(term.valid()) by {
            K::axiom_mul(lam[k - 1], g[k - 1][j]);
        }
        lemma_colsum_valid(lam, g, j, k - 1);
        K::axiom_add_assoc(s1, delta, term);
        K::axiom_add(delta, term);
        K::axiom_add_assoc(s1, term, delta);
    }
}

/// Summing against a column holding a single one at row `t` picks out the
/// weight of row `t`.
proof fn lemma_colsum_unit_column<K: Numeric>(lam: Seq<K>, g: Seq<Seq<K>>, t: int, j: int, k: int)
    requires
        forall|u: int| 0 <= u < k ==> (#[trigger] lam[u]).valid(),
        forall|u: int|
            0 <= u < k ==> #[trigger] g[u][j] == if u == t {
                K::spec_one()
            } else {
                K::spec_zero()
            },
    ensures
        colsum_s(lam, g, j, k) == if 0 <= t < k {
            lam[t]
        } else {
            K::spec_zero()
        },
    decreases k,
{
    K::axiom_identities();
    if k > 0 {
        lemma_colsum_unit_column(lam, g, t, j, k - 1);
        if k - 1 == t {
            K::axiom_mul(lam[t], K::spec_one());
            K::axiom_add(lam[t], K::spec_zero());
            K::axiom_add(K::spec_zero(), lam[t]);
        } else {
            lemma_mul_zero(lam[k - 1]);
            if 0 <= t < k - 1 {
                K::axiom_add(lam[t], K::spec_zero());
            } else {
                K::axiom_add(K::spec_zero(), K::spec_zero());
            }
        }
    }
}


/// Moving a pair of weights with their pair of rows leaves the sum alone.
proof fn lemma_colsum_swap<K: Numeric>(
    lam: Seq<K>,
    g: Seq<Seq<K>>,
    r: int,
    pv: int,
    j: int,
    k: int,
)
    requires
        0 <= r < k,
        0 <= pv < k,
        k <= lam.len(),
        k <= g.len(),
        0 <= j,
        j < g[r].len(),
        j < g[pv].len(),
        forall|t: int| 0 <= t < k ==> (#[trigger] lam[t]).valid(),
        forall|t: int| 0 <= t < k ==> (#[trigger] g[t][j]).valid(),
    ensures
        colsum_s(lam.update(r, lam[pv]).update(pv, lam[r]), swap_rows_s(g, r, pv), j, k)
            == colsum_s(lam, g, j, k),
{
    K::axiom_identities();
    let lam2 = lam.update(r, lam[pv]).update(pv, lam[r]);
    let g2 = swap_rows_s(g, r, pv);
    if r == pv {
        assert(lam2 =~= lam);
        assert(g2 =~= g);
    } else {
        let lr = lam[r];
        let lp = lam[pv];
        let gr = g[r][j];
        let gp = g[pv][j];
        let s0 = colsum_s(lam, g, j, k);
        let g1 = g.update(r, g[pv]);
        let lam1 = lam.update(r, lam[pv]);
        // Four single updates, each shifting the sum by a known amount.
        lemma_colsum_update_g(lam, g, r, g[pv], j, k);
        let t1 = lr.spec_mul(gp.spec_sub(gr));
        assert(colsum_s(lam, g1, j, k) == s0.spec_add(t1));
        assert forall|t: int| 0 <= t < k implies (#[trigger] g1[t][j]).valid() by {
            assert(g1[t] == g[t] || g1[t] == g[pv]);
        }
        assert(g1[pv][j] == gp);
        lemma_colsum_update_g(lam, g1, pv, g[r], j, k);
        let t2 = lp.spec_mul(gr.spec_sub(gp));
        assert(g2 == g1.update(pv, g[r]));
        assert(colsum_s(lam, g2, j, k) == s0.spec_add(t1).spec_add(t2));
        assert forall|t: int| 0 <= t < k implies (#[trigger] g2[t][j]).valid() by {
            assert(g2[t] == g[t] || g2[t] == g[r] || g2[t] == g[pv]);
        }
        assert(g2[r][j] == gp && g2[pv][j] == gr);
        lemma_colsum_update_lam(lam, g2, r, lp, j, k);
        let t3 = lp.spec_sub(lr).spec_mul(gp);
        assert(colsum_s(lam1, g2, j, k) == s0.spec_add(t1).spec_add(t2).spec_add(t3));
        assert forall|t: int| 0 <= t < k implies (#[trigger] lam1[t]).valid() by {
            assert(lam1[t] == lam[t] || lam1[t] == lam[pv]);
        }
        assert(lam1[pv] == lp && lam1[r] == lp);
        lemma_colsum_update_lam(lam1, g2, pv, lr, j, k);
        let t4 = lr.spec_sub(lp).spec_mul(gr);
        assert(lam2 == lam1.update(pv, lr));
        assert(colsum_s(lam2, g2, j, k) == s0.spec_add(t1).spec_add(t2).spec_add(t3).spec_add(t4));
        // The four shifts cancel.
        assert(lr.valid() && lp.valid() && gr.valid() && gp.valid());
        let a1 = lr.spec_mul(gp);
        let a2 = lr.spec_mul(gr);
        let a3 = lp.spec_mul(gr);
        let a4 = lp.spec_mul(gp);
        assert(a1.valid() && a2.valid() && a3.valid() && a4.valid()) by {
            K::axiom_mul(lr, gp);
            K::axiom_mul(lr, gr);
            K::axiom_mul(lp, gr);
            K::axiom_mul(lp, gp);
        }
        lemma_mul_sub(lr, gp, gr);
        assert(t1 == a1.spec_sub(a2));
        lemma_mul_sub(lp, gr, gp);
        assert(t2 == a3.spec_sub(a4));
        lemma_sub_mul_distrib(lp, lr, gp);
        assert(t3 == a4.spec_sub(a1));
        lemma_sub_mul_distrib(lr, lp, gr);
        assert(t4 == a2.spec_sub(a3));
        // (a1 - a2) + (a3 - a4) == (a1 + a3) - (a2 + a4)
        lemma_sub_add_exchange(a1, a2, a3, a4);
        // (a4 - a1) + (a2 - a3) == (a4 + a2) - (a1 + a3)
        lemma_sub_add_exchange(a4, a1, a2, a3);
        let u = a1.spec_add(a3);
        let v = a2.spec_add(a4);
        assert(u.valid() && v.valid()) by {
            K::axiom_add(a1, a3);
            K::axiom_add(a2, a4);
        }
        assert(a4.spec_add(a2) == v) by {
            K::axiom_add(a2, a4);
        }
        assert(t1.spec_add(t2) == u.spec_sub(v));
        assert(t3.spec_add(t4) == v.spec_sub(u));
        let e12 = u.spec_sub(v);
        let e34 = v.spec_sub(u);
        assert(e12.spec_add(e34) == K::spec_zero()) by {
            lemma_sub_opposites(u, v);
        }
        // s0 + t1 + t2 + t3 + t4 == s0 + (t1 + t2) + (t3 + t4) == s0
        assert(t1.valid() && t2.valid() && t3.valid() && t4.valid()) by {
            K::axiom_sub(a1, a2);
            K::axiom_sub(a3, a4);
            K::axiom_sub(a4, a1);
            K::axiom_sub(a2, a3);
        }
        lemma_colsum_valid(lam, g, j, k);
        K::axiom_add_assoc(s0, t1, t2);
        assert(e12.valid() && e34.valid()) by {
            K::axiom_sub(u, v);
            K::axiom_sub(v, u);
        }
        K::axiom_add(s0, e12);
        K::axiom_add_assoc(s0, e12, t3);
        K::axiom_add_assoc(s0.spec_add(e12), t3, t4);
        K::axiom_add_assoc(s0, e12, e34);
        K::axiom_add(s0, K::spec_zero());
    }
}


/// One whole elimination step shifts a weighted column sum by the weighted
/// column of factors times the source row's entry.
proof fn lemma_colsum_elim<K: Numeric>(
    lam: Seq<K>,
    g1: Seq<Seq<K>>,
    g2: Seq<Seq<K>>,
    r: int,
    c: int,
    w: nat,
    j: int,
    k: int,
)
    requires
        0 <= r < g1.len(),
        r < lam.len(),
        k <= lam.len(),
        k <= g1.len(),
        g2.len() == g1.len(),
        0 <= j < w,
        0 <= c < w,
        grid_rect(g1, w),
        grid_valid(g1),
        forall|t: int| 0 <= t < k ==> (#[trigger] lam[t]).valid(),
        forall|t: int|
            0 <= t < g1.len() ==> #[trigger] g2[t] == if t == r {
                g1[t]
            } else {
                row_sub_mul_s(g1[t], g1[r], g1[t][c])
            },
    ensures
        colsum_s(lam, g2, j, k) == colsum_s(lam, g1, j, k).spec_sub(
            colsum_s(lam.update(r, K::spec_zero()), g1, c, k).spec_mul(g1[r][j]),
        ),
    decreases k,
{
    K::axiom_identities();
    let lamz = lam.update(r, K::spec_zero());
    let nrj = g1[r][j];
    assert(nrj.valid()) by {
        assert(row_valid(g1[r]));
    }
    assert forall|t: int| 0 <= t < k implies (#[trigger] lamz[t]).valid() by {
        assert(lamz[t] == lam[t] || lamz[t] == K::spec_zero());
    }
    assert forall|t: int| 0 <= t < k implies (#[trigger] g1[t][j]).valid() && g1[t][c].valid() by {
        assert(row_valid(g1[t]));
    }
    if k <= 0 {
        lemma_mul_zero(nrj);
        lemma_sub_zero(K::spec_zero());
    } else {
        lemma_colsum_elim(lam, g1, g2, r, c, w, j, k - 1);
        let s1p = colsum_s(lam, g1, j, k - 1);
        let s2p = colsum_s(lam, g2, j, k - 1);
        let zp = colsum_s(lamz, g1, c, k - 1);
        lemma_colsum_valid(lam, g1, j, k - 1);
        lemma_colsum_valid(lamz, g1, c, k - 1);
        let zn = zp.spec_mul(nrj);
        assert(zn.valid()) by {
            K::axiom_mul(zp, nrj);
        }
        if k - 1 == r {
            assert(g2[r] == g1[r]);
            let term = lam[r].spec_mul(nrj);
            assert(term.valid()) by {
                K::axiom_mul(lam[r], nrj);
            }
            assert(lamz[r] == K::spec_zero());
            assert(lamz[r].spec_mul(g1[r][c]) == K::spec_zero()) by {
                lemma_mul_zero(g1[r][c]);
            }
            assert(colsum_s(lamz, g1, c, k) == zp) by {
                K::axiom_add(zp, K::spec_zero());
            }
            // (s1p - zn) + (term - 0) == (s1p + term) - (zn + 0)
            lemma_sub_add_exchange(s1p, zn, term, K::spec_zero());
            lemma_sub_zero(term);
            K::axiom_add(zn, K::spec_zero());
        } else {
            let t = k - 1;
            let f = g1[t][c];
            let ltj = lam[t].spec_mul(g1[t][j]);
            assert(g2[t] == row_sub_mul_s(g1[t], g1[r], f));
            assert(g1[t].len() == w);
            assert(g2[t][j] == g1[t][j].spec_sub(f.spec_mul(nrj)));
            // lam_t * (g1tj - f * nrj) == lam_t * g1tj - (lam_t * f) * nrj
            assert(f.spec_mul(nrj).valid()) by {
                K::axiom_mul(f, nrj);
            }
            lemma_mul_sub(lam[t], g1[t][j], f.spec_mul(nrj));
            K::axiom_mul_assoc(lam[t], f, nrj);
            let ltf = lam[t].spec_mul(f);
            assert(ltf.valid() && ltj.valid()) by {
                K::axiom_mul(lam[t], f);
                K::axiom_mul(lam[t], g1[t][j]);
            }
            assert(lam[t].spec_mul(g2[t][j]) == ltj.spec_sub(ltf.spec_mul(nrj)));
            assert(lamz[t] == lam[t]);
            // (s1p - zp * nrj) + (ltj - ltf * nrj)
            //   == (s1p + ltj) - ((zp + ltf) * nrj)
            assert(ltf.spec_mul(nrj).valid()) by {
                K::axiom_mul(ltf, nrj);
            }
            lemma_sub_add_exchange(s1p, zn, ltj, ltf.spec_mul(nrj));
            lemma_add_mul_distrib(zp, ltf, nrj);
        }
    }
}


/// A non-trivial weighting of the rows that annihilates every column left
/// of `w` survives Gauss-Jordan elimination: some such weighting annihilates
/// the same columns of what elimination leaves.
proof fn lemma_rref_keeps_null<K: Numeric>(
    g: Seq<Seq<K>>,
    w: int,
    cols: int,
    lam: Seq<K>,
    r: int,
    c: int,
) -> (lam2: Seq<K>)
    requires
        0 <= w <= cols,
        grid_rect(g, cols as nat),
        grid_valid(g),
        lam.len() == g.len(),
        forall|t: int| 0 <= t < lam.len() ==> (#[trigger] lam[t]).valid(),
        exists|t: int| 0 <= t < lam.len() && #[trigger] lam[t] != K::spec_zero(),
        forall|j: int| 0 <= j < w ==> #[trigger] colsum_s(lam, g, j, g.len() as int)
            == K::spec_zero(),
        0 <= r <= g.len(),
        0 <= c <= cols,
    ensures
        lam2.len() == g.len(),
        forall|t: int| 0 <= t < lam2.len() ==> (#[trigger] lam2[t]).valid(),
        exists|t: int| 0 <= t < lam2.len() && #[trigger] lam2[t] != K::spec_zero(),
        forall|j: int|
            0 <= j < w ==> #[trigger] colsum_s(lam2, rref_from_s(g, cols, r, c), j, g.len() as int)
                == K::spec_zero(),
    decreases cols - c,
{
    K::axiom_identities();
    let n = g.len() as int;
    if r >= n || c >= cols {
        lam
    } else {
        match find_pivot_s(g, c, r) {
            Option::None => {
                let lam2 = lemma_rref_keeps_null(g, w, cols, lam, r, c + 1);
                assert forall|j: int| 0 <= j < w implies #[trigger] colsum_s(
                    lam2,
                    rref_from_s(g, cols, r, c),
                    j,
                    n,
                ) == K::spec_zero() by {
                    assert(colsum_s(lam2, rref_from_s(g, cols, r, c + 1), j, n)
                        == K::spec_zero());
                }
                lam2
            },
            Option::Some(pv) => {
                lemma_find_pivot_some(g, c, r, pv);
                let ms = swap_rows_s(g, r, pv);
                let lam_s = lam.update(r, lam[pv]).update(pv, lam[r]);
                assert(grid_rect(ms, cols as nat) && grid_valid(ms)) by {
                    assert forall|t: int| 0 <= t < n implies (#[trigger] ms[t]).len() == cols
                        && row_valid(ms[t]) by {
                        assert(ms[t] == g[t] || ms[t] == g[r] || ms[t] == g[pv]);
                        assert(row_valid(g[t]) && row_valid(g[r]) && row_valid(g[pv]));
                    }
                }
                assert forall|t: int| 0 <= t < n implies (#[trigger] lam_s[t]).valid() by {
                    assert(lam_s[t] == lam[t] || lam_s[t] == lam[r] || lam_s[t] == lam[pv]);
                }
                assert(exists|t: int| 0 <= t < n && #[trigger] lam_s[t] != K::spec_zero()) by {
                    let t0 = choose|t0: int| 0 <= t0 < n && #[trigger] lam[t0] != K::spec_zero();
                    if t0 == r {
                        assert(lam_s[pv] == lam[r]);
                    } else if t0 == pv {
                        assert(lam_s[r] == if r == pv {
                            lam[r]
                        } else {
                            lam[pv]
                        });
                    } else {
                        assert(lam_s[t0] == lam[t0]);
                    }
                }
                assert forall|j: int| 0 <= j < w implies #[trigger] colsum_s(lam_s, ms, j, n)
                    == K::spec_zero() by {
                    assert forall|t: int| 0 <= t < n implies (#[trigger] g[t][j]).valid() by {
                        assert(row_valid(g[t]));
                    }
                    lemma_colsum_swap(lam, g, r, pv, j, n);
                }
                let d = ms[r][c];
                assert(d.valid() && d != K::spec_zero()) by {
                    assert(ms[r] == g[pv]);
                    assert(row_valid(g[pv]));
                }
                let nr = row_div_s(ms[r], d);
                let mid = ms.update(r, nr);
                assert(nr.len() == cols && row_valid(nr)) by {
                    assert forall|u: int| 0 <= u < nr.len() implies (#[trigger] nr[u]).valid() by {
                        K::axiom_div(ms[r][u], d);
                    }
                }
                assert(grid_rect(mid, cols as nat) && grid_valid(mid)) by {
                    assert forall|t: int| 0 <= t < n implies (#[trigger] mid[t]).len() == cols
                        && row_valid(mid[t]) by {
                        if t != r {
                            assert(mid[t] == ms[t]);
                        }
                    }
                }
                let lam_n = lam_s.update(r, lam_s[r].spec_mul(d));
                assert(lam_s[r].spec_mul(d).valid()) by {
                    K::axiom_mul(lam_s[r], d);
                }
                assert forall|t: int| 0 <= t < n implies (#[trigger] lam_n[t]).valid() by {
                    assert(lam_n[t] == lam_s[t] || lam_n[t] == lam_s[r].spec_mul(d));
                }
                assert forall|j: int| 0 <= j < w implies #[trigger] colsum_s(lam_n, mid, j, n)
                    == K::spec_zero() by {
                    assert forall|t: int| 0 <= t < n implies (#[trigger] ms[t][j]).valid() by {
                        assert(row_valid(ms[t]));
                    }
                    lemma_colsum_update_g(lam_s, ms, r, nr, j, n);
                    assert forall|t: int| 0 <= t < n implies (#[trigger] mid[t][j]).valid() by {
                        assert(row_valid(mid[t]));
                    }
                    lemma_colsum_update_lam(lam_s, mid, r, lam_s[r].spec_mul(d), j, n);
                    let lr = lam_s[r];
                    let nrj = nr[j];
                    let msrj = ms[r][j];
                    assert(lr.valid() && nrj.valid() && msrj.valid()) by {
                        assert(row_valid(ms[r]));
                    }
                    assert(mid[r][j] == nrj);
                    assert(nrj.spec_mul(d) == msrj) by {
                        K::axiom_div(msrj, d);
                    }
                    let t1 = lr.spec_mul(nrj.spec_sub(msrj));
                    let t2 = lr.spec_mul(d).spec_sub(lr).spec_mul(nrj);
                    assert(colsum_s(lam_n, mid, j, n) == colsum_s(lam_s, ms, j, n).spec_add(
                        t1,
                    ).spec_add(t2));
                    let x = lr.spec_mul(d).spec_mul(nrj);
                    lemma_mul_sub(lr, nrj, msrj);
                    assert(lr.spec_mul(msrj) == x) by {
                        // lr * (nrj * d) == (lr * d) * nrj
                        K::axiom_mul(nrj, d);
                        K::axiom_mul(d, nrj);
                        K::axiom_mul_assoc(lr, d, nrj);
                        K::axiom_mul_assoc(lr, nrj, d);
                        K::axiom_mul(lr, nrj);
                        K::axiom_mul(lr.spec_mul(nrj), d);
                        assert(lr.spec_mul(nrj.spec_mul(d)) == lr.spec_mul(nrj).spec_mul(d));
                        assert(lr.spec_mul(nrj).spec_mul(d) == lr.spec_mul(d.spec_mul(nrj)));
                        K::axiom_mul(lr, d);
                        K::axiom_mul_assoc(lr, d, nrj);
                    }
                    lemma_sub_mul_distrib(lr.spec_mul(d), lr, nrj);
                    let lnr = lr.spec_mul(nrj);
                    assert(lnr.valid() && x.valid()) by {
                        K::axiom_mul(lr, nrj);
                        K::axiom_mul(lr.spec_mul(d), nrj);
                    }
                    assert(t1 == lnr.spec_sub(x));
                    assert(t2 == x.spec_sub(lnr));
                    lemma_sub_opposites(lnr, x);
                    assert(t1.valid() && t2.valid()) by {
                        K::axiom_sub(lnr, x);
                        K::axiom_sub(x, lnr);
                    }
                    K::axiom_add_assoc(K::spec_zero(), t1, t2);
                    assert(t1.spec_add(t2).valid()) by {
                        K::axiom_add(t1, t2);
                    }
                    assert(K::spec_zero().spec_add(t1.spec_add(t2)) == K::spec_zero()) by {
                        K::axiom_add(K::spec_zero(), K::spec_zero());
                    }
                }
                assert(exists|t: int| 0 <= t < n && #[trigger] lam_n[t] != K::spec_zero()) by {
                    let t0 = choose|t0: int| 0 <= t0 < n && #[trigger] lam_s[t0] != K::spec_zero();
                    if t0 == r {
                        if lam_n[r] == K::spec_zero() {
                            lemma_mul_integral(d, lam_s[r]);
                        }
                        assert(lam_n[r] != K::spec_zero());
                    } else {
                        assert(lam_n[t0] == lam_s[t0]);
                    }
                }
                // Eliminate, folding the factors into the pivot weight.
                let me = rref_elim_s(ms, r, c);
                assert(me.len() == n);
                assert forall|t: int| 0 <= t < n implies #[trigger] me[t] == (if t == r {
                    mid[t]
                } else {
                    row_sub_mul_s(mid[t], mid[r], mid[t][c])
                }) by {
                    if t != r {
                        assert(mid[t] == ms[t]);
                        assert(me[t] == row_sub_mul_s(ms[t], nr, ms[t][c]));
                    }
                }
                assert(grid_rect(me, cols as nat) && grid_valid(me)) by {
                    assert forall|t: int| 0 <= t < n implies (#[trigger] me[t]).len() == cols
                        && row_valid(me[t]) by {
                        if t != r {
                            assert(me[t] == row_sub_mul_s(mid[t], nr, mid[t][c]));
                            assert(row_valid(mid[t]));
                            assert forall|u: int| 0 <= u < cols implies (#[trigger] me[t][u]).valid()
                            by {
                                K::axiom_mul(mid[t][c], nr[u]);
                                K::axiom_sub(mid[t][u], mid[t][c].spec_mul(nr[u]));
                            }
                        }
                    }
                }
                let lam_nz = lam_n.update(r, K::spec_zero());
                let fsum = colsum_s(lam_nz, mid, c, n);
                assert(fsum.valid()) by {
                    assert forall|t: int| 0 <= t < n implies (#[trigger] lam_nz[t]).valid() by {
                        assert(lam_nz[t] == lam_n[t] || lam_nz[t] == K::spec_zero());
                    }
                    assert forall|t: int| 0 <= t < n implies (#[trigger] mid[t][c]).valid() by {
                        assert(row_valid(mid[t]));
                    }
                    lemma_colsum_valid(lam_nz, mid, c, n);
                }
                let lam_e = lam_n.update(r, lam_n[r].spec_add(fsum));
                assert(lam_n[r].spec_add(fsum).valid()) by {
                    K::axiom_add(lam_n[r], fsum);
                }
                assert forall|t: int| 0 <= t < n implies (#[trigger] lam_e[t]).valid() by {
                    assert(lam_e[t] == lam_n[t] || lam_e[t] == lam_n[r].spec_add(fsum));
                }
                assert forall|j: int| 0 <= j < w implies #[trigger] colsum_s(lam_e, me, j, n)
                    == K::spec_zero() by {
                    lemma_colsum_elim(lam_n, mid, me, r, c, cols as nat, j, n);
                    let nrj = mid[r][j];
                    assert(nrj.valid()) by {
                        assert(row_valid(mid[r]));
                    }
                    assert(lam_n.update(r, K::spec_zero()) == lam_nz);
                    assert(colsum_s(lam_n, me, j, n) == K::spec_zero().spec_sub(
                        fsum.spec_mul(nrj),
                    ));
                    assert forall|t: int| 0 <= t < n implies (#[trigger] me[t][j]).valid() by {
                        assert(row_valid(me[t]));
                    }
                    lemma_colsum_update_lam(lam_n, me, r, lam_n[r].spec_add(fsum), j, n);
                    assert(me[r][j] == nrj);
                    lemma_add_sub_cancel(lam_n[r], fsum);
                    let fx = fsum.spec_mul(nrj);
                    assert(fx.valid()) by {
                        K::axiom_mul(fsum, nrj);
                    }
                    // (0 - fx) + fx == 0
                    assert(K::spec_zero().spec_sub(fx).spec_add(fx) == K::spec_zero()) by {
                        K::axiom_sub(K::spec_zero(), fx);
                        K::axiom_neg(fx);
                        assert(K::spec_zero().spec_sub(fx) == K::spec_zero().spec_add(
                            fx.spec_neg(),
                        ));
                        K::axiom_add(K::spec_zero(), fx.spec_neg());
                        K::axiom_add(fx.spec_neg(), K::spec_zero());
                        assert(K::spec_zero().spec_sub(fx) == fx.spec_neg());
                        K::axiom_add(fx, fx.spec_neg());
                        K::axiom_add(fx.spec_neg(), fx);
                    }
                }
                assert(exists|t: int| 0 <= t < n && #[trigger] lam_e[t] != K::spec_zero()) by {
                    let t0 = choose|t0: int| 0 <= t0 < n && #[trigger] lam_n[t0] != K::spec_zero();
                    if t0 == r {
                        if forall|t: int| 0 <= t < n && t != r ==> #[trigger] lam_n[t]
                            == K::spec_zero() {
                            assert(fsum == K::spec_zero()) by {
                                assert forall|t: int| 0 <= t < n implies #[trigger] lam_nz[t]
                                    == K::spec_zero() by {
                                    if t != r {
                                        assert(lam_nz[t] == lam_n[t]);
                                    }
                                }
                                assert forall|t: int| 0 <= t < n implies (#[trigger] mid[t][c]).valid()
                                by {
                                    assert(row_valid(mid[t]));
                                }
                                lemma_colsum_zero(lam_nz, mid, c, n);
                            }
                            assert(lam_e[r] == lam_n[r].spec_add(K::spec_zero()));
                            K::axiom_add(lam_n[r], K::spec_zero());
                            assert(lam_e[r] != K::spec_zero());
                        } else {
                            let t1 = choose|t1: int|
                                0 <= t1 < n && t1 != r && #[trigger] lam_n[t1] != K::spec_zero();
                            assert(lam_e[t1] == lam_n[t1]);
                        }
                    } else {
                        assert(lam_e[t0] == lam_n[t0]);
                    }
                }
                let lam2 = lemma_rref_keeps_null(me, w, cols, lam_e, r + 1, c + 1);
                assert(rref_from_s(g, cols, r, c) == rref_from_s(me, cols, r + 1, c + 1));
                assert forall|j: int| 0 <= j < w implies #[trigger] colsum_s(
                    lam2,
                    rref_from_s(g, cols, r, c),
                    j,
                    n,
                ) == K::spec_zero() by {
                    assert(colsum_s(lam2, rref_from_s(me, cols, r + 1, c + 1), j, n)
                        == K::spec_zero());
                }
                lam2
            },
        }
    }
}


/// A square matrix whose rows admit a non-trivial annihilating weighting is
/// reported singular: full reduction of `[a | I]` must leave a zero on the
/// left diagonal.
proof fn lemma_null_comb_not_invertible<K: Numeric>(a: Seq<Seq<K>>, cols: int, lam: Seq<K>)
    requires
        0 <= cols,
        a.len() == cols,
        grid_rect(a, cols as nat),
        grid_valid(a),
        lam.len() == a.len(),
        forall|t: int| 0 <= t < lam.len() ==> (#[trigger] lam[t]).valid(),
        exists|t: int| 0 <= t < lam.len() && #[trigger] lam[t] != K::spec_zero(),
        forall|j: int|
            0 <= j < a.len() ==> #[trigger] colsum_s(lam, augment_s(a), j, a.len() as int)
                == K::spec_zero(),
    ensures
        spec_inverse(a, cols) == Result::<Seq<Seq<K>>, MatrixError>::Err(
            MatrixError::NotInvertible,
        ),
{
    K::axiom_identities();
    let n = a.len() as int;
    let g0 = augment_s(a);
    let aug = spec_reduced_row_echelon(g0, 2 * n);
    lemma_augment_tracks(a);
    let lam2 = lemma_rref_keeps_null(g0, n, 2 * n, lam, 0, 0);
    lemma_reduction_is_rref(g0, 2 * n);
    if !(exists|i: int| 0 <= i < n && #[trigger] aug[i][i] == K::spec_zero()) {
        assert forall|i: int| 0 <= i < n implies #[trigger] aug[i][i] != K::spec_zero() by {}
        lemma_left_identity(aug, n);
        let t0 = choose|t0: int| 0 <= t0 < n && #[trigger] lam2[t0] != K::spec_zero();
        assert forall|u: int| 0 <= u < n implies #[trigger] aug[u][t0] == (if u == t0 {
            K::spec_one()
        } else {
            K::spec_zero()
        }) by {}
        lemma_colsum_unit_column(lam2, aug, t0, t0, n);
        assert(colsum_s(lam2, aug, t0, n) == lam2[t0]);
        assert(colsum_s(lam2, aug, t0, n) == K::spec_zero());
        assert(false);
    }
}

/// An all-zero row makes the matrix singular: `inverse` fails with the
/// not-invertible error.
pub proof fn theorem_zero_row_not_invertible<K: Numeric>(a: Seq<Seq<K>>, cols: int, z: int)
    requires
        0 <= cols,
        a.len() == cols,
        grid_rect(a, cols as nat),
        grid_valid(a),
        0 <= z < a.len(),
        is_zero_row_s(a[z]),
    ensures
        spec_inverse(a, cols) == Result::<Seq<Seq<K>>, MatrixError>::Err(
            MatrixError::NotInvertible,
        ),
{
    K::axiom_identities();
    let n = a.len() as int;
    let g0 = augment_s(a);
    lemma_augment_tracks(a);
    let zv = Seq::<K>::new(n as nat, |t: int| K::spec_zero());
    let lam = zv.update(z, K::spec_one());
    assert forall|t: int| 0 <= t < lam.len() implies (#[trigger] lam[t]).valid() by {
        assert(lam[t] == zv[t] || lam[t] == K::spec_one());
    }
    assert(lam[z] == K::spec_one());
    assert forall|j: int| 0 <= j < n implies #[trigger] colsum_s(lam, g0, j, n)
        == K::spec_zero() by {
        assert forall|t: int| 0 <= t < n implies (#[trigger] g0[t][j]).valid() by {
            assert(row_valid(g0[t]));
        }
        lemma_colsum_zero(zv, g0, j, n);
        lemma_colsum_update_lam(zv, g0, z, K::spec_one(), j, n);
        assert(g0[z][j] == a[z][j]);
        assert(a[z].len() == cols);
        assert(g0[z][j] == K::spec_zero());
        let f = K::spec_one().spec_sub(zv[z]);
        assert(f.valid()) by {
            K::axiom_sub(K::spec_one(), K::spec_zero());
        }
        lemma_mul_zero(f);
        K::axiom_add(K::spec_zero(), K::spec_zero());
    }
    lemma_null_comb_not_invertible(a, cols, lam);
}

/// Two distinct proportional rows make the matrix singular: `inverse` fails
/// with the not-invertible error.
pub proof fn theorem_proportional_rows_not_invertible<K: Numeric>(
    a: Seq<Seq<K>>,
    cols: int,
    p: int,
    q: int,
    w: K,
)
    requires
        0 <= cols,
        a.len() == cols,
        grid_rect(a, cols as nat),
        grid_valid(a),
        rows_proportional_s(a, p, q, w),
    ensures
        spec_inverse(a, cols) == Result::<Seq<Seq<K>>, MatrixError>::Err(
            MatrixError::NotInvertible,
        ),
{
    K::axiom_identities();
    let n = a.len() as int;
    let g0 = augment_s(a);
    lemma_augment_tracks(a);
    let zv = Seq::<K>::new(n as nat, |t: int| K::spec_zero());
    let lam1 = zv.update(p, K::spec_one());
    let nw = w.spec_neg();
    assert(nw.valid()) by {
        K::axiom_neg(w);
    }
    let lam = lam1.update(q, nw);
    assert forall|t: int| 0 <= t < lam.len() implies (#[trigger] lam[t]).valid() by {
        assert(lam[t] == zv[t] || lam[t] == K::spec_one() || lam[t] == nw);
    }
    assert(lam[p] == K::spec_one());
    assert forall|j: int| 0 <= j < n implies #[trigger] colsum_s(lam, g0, j, n)
        == K::spec_zero() by {
        assert forall|t: int| 0 <= t < n implies (#[trigger] g0[t][j]).valid() by {
            assert(row_valid(g0[t]));
        }
        assert forall|t: int| 0 <= t < n implies (#[trigger] lam1[t]).valid() by {
            assert(lam1[t] == zv[t] || lam1[t] == K::spec_one());
        }
        lemma_colsum_zero(zv, g0, j, n);
        lemma_colsum_update_lam(zv, g0, p, K::spec_one(), j, n);
        lemma_colsum_update_lam(lam1, g0, q, nw, j, n);
        let apj = g0[p][j];
        let aqj = g0[q][j];
        assert(apj == a[p][j] && aqj == a[q][j]);
        assert(apj.valid() && aqj.valid()) by {
            assert(row_valid(a[p]) && row_valid(a[q]));
            assert(a[p].len() == cols && a[q].len() == cols);
        }
        // The weighted sum is a[p][j] - w * a[q][j], which the
        // proportionality makes zero.
        let f1 = K::spec_one().spec_sub(zv[p]);
        assert(f1 == K::spec_one()) by {
            lemma_sub_zero(K::spec_one());
        }
        assert(f1.spec_mul(apj) == apj) by {
            K::axiom_mul(apj, K::spec_one());
            K::axiom_mul(K::spec_one(), apj);
        }
        assert(lam1[q] == zv[q]);
        let f2 = nw.spec_sub(zv[q]);
        assert(f2 == nw) by {
            lemma_sub_zero(nw);
        }
        assert(colsum_s(lam1, g0, j, n) == apj) by {
            K::axiom_add(K::spec_zero(), apj);
            K::axiom_add(apj, K::spec_zero());
        }
        let x = aqj.spec_mul(w);
        assert(apj == x) by {
            assert(a[p] == row_scale_s(a[q], w));
            assert(a[p][j] == a[q][j].spec_mul(w));
        }
        assert(x.valid()) by {
            K::axiom_mul(aqj, w);
        }
        assert(nw.spec_mul(aqj) == x.spec_neg()) by {
            crate::field::lemma_neg_mul(w, aqj);
            K::axiom_mul(w, aqj);
            K::axiom_mul(aqj, w);
        }
        assert(colsum_s(lam, g0, j, n) == x.spec_add(x.spec_neg()));
        K::axiom_neg(x);
    }
    lemma_null_comb_not_invertible(a, cols, lam);
}


/// The inverse law in the other order: whenever `inverse` succeeds, the
/// original matrix multiplies what it returns back to the identity.
pub proof fn theorem_matrix_times_inverse<K: Numeric>(a: Seq<Seq<K>>, cols: int, b: Seq<Seq<K>>)
    requires
        grid_rect(a, cols as nat),
        grid_valid(a),
        0 <= cols,
        spec_inverse(a, cols) == Result::<Seq<Seq<K>>, MatrixError>::Ok(b),
    ensures
        b.len() == a.len(),
        mat_product_s(a, b, a.len() as int) == identity_s::<K>(a.len() as nat),
{
    K::axiom_identities();
    let n = a.len() as int;
    assert(n == cols);
    theorem_inverse_multiplies_to_identity(a, cols, b);
    let idm = identity_s::<K>(a.len() as nat);
    let x = mat_product_s(a, b, n);
    lemma_augment_tracks(a);
    let g0 = augment_s(a);
    // Each entry of the product a * b is pinned: were any row of it to
    // differ from the identity row, that difference would weight the rows of
    // `a` into nothing, and the matrix would have been refused as singular.
    assert forall|i: int, k: int| 0 <= i < n && 0 <= k < n implies #[trigger] x[i][k]
        == idm[i][k] by {
        assert forall|u: int| 0 <= u < n implies (#[trigger] x[i][u]).valid() by {
            assert(x[i][u] == mat_mul_entry_s(a, b, i, u, n));
            assert forall|t: int| 0 <= t < n implies (#[trigger] a[i][t]).valid() by {
                assert(row_valid(a[i]));
            }
            assert forall|t: int| 0 <= t < n implies (#[trigger] b[t][u]).valid() by {
                assert(row_valid(b[t]));
            }
            crate::product_props::lemma_mat_mul_entry_valid(a, b, i, u, n);
        }
        if x[i][k] != idm[i][k] {
            let lam = Seq::<K>::new(n as nat, |u: int| x[i][u].spec_sub(idm[i][u]));
            assert forall|u: int| 0 <= u < n implies (#[trigger] lam[u]).valid() by {
                K::axiom_sub(x[i][u], idm[i][u]);
            }
            assert(lam[k] != K::spec_zero()) by {
                if lam[k] == K::spec_zero() {
                    lemma_sub_zero(idm[i][k]);
                    crate::field::lemma_add_sub_restore(idm[i][k], x[i][k]);
                    assert(idm[i][k].spec_add(lam[k]) == x[i][k]);
                    K::axiom_add(idm[i][k], K::spec_zero());
                }
            }
            assert forall|j: int| 0 <= j < n implies #[trigger] colsum_s(lam, g0, j, n)
                == K::spec_zero() by {
                // The weighted sum is (x a)[i][j] - (idm a)[i][j], and both
                // products collapse to a[i][j].
                let fx = |t: int| x[i][t].spec_mul(a[t][j]);
                let fi = |t: int| idm[i][t].spec_mul(a[t][j]);
                let fl = |t: int| lam[t].spec_mul(g0[t][j]);
                assert forall|t: int| 0 <= t < n implies (#[trigger] a[t][j]).valid()
                    && g0[t][j] == a[t][j] by {
                    assert(row_valid(a[t]));
                }
                assert forall|t: int| 0 <= t < n implies (#[trigger] fx(t)).valid() by {
                    K::axiom_mul(x[i][t], a[t][j]);
                }
                assert forall|t: int| 0 <= t < n implies (#[trigger] fi(t)).valid() by {
                    K::axiom_mul(idm[i][t], a[t][j]);
                }
                assert forall|t: int| 0 <= t < n implies #[trigger] fl(t) == fx(t).spec_sub(
                    fi(t),
                ) by {
                    lemma_sub_mul_distrib(x[i][t], idm[i][t], a[t][j]);
                }
                crate::product_props::lemma_sum_sub(fx, fi, fl, n);
                lemma_colsum_as_sum(lam, g0, j, n);
                // The first sum is the associative rewrite of (a b) a.
                crate::product_props::lemma_mat_mul_entry_as_sum(x, a, i, j, n);
                assert(sum_s(fx, n) == mat_mul_entry_s(x, a, i, j, n)) by {
                    crate::product_props::lemma_sum_congruence(
                        |t: int| x[i][t].spec_mul(a[t][j]),
                        fx,
                        n,
                    );
                }
                assert forall|l: int, kk: int| 0 <= l < n && 0 <= kk < n implies (
                #[trigger] b[l][kk]).valid() by {
                    assert(row_valid(b[l]));
                }
                assert forall|l: int| 0 <= l < n implies (#[trigger] a[i][l]).valid() by {
                    assert(row_valid(a[i]));
                }
                crate::product_props::lemma_product_assoc_entry(a, b, a, n, i, j);
                assert(mat_mul_entry_s(x, a, i, j, n) == mat_mul_entry_s(
                    a,
                    mat_product_s(b, a, n),
                    i,
                    j,
                    n,
                ));
                assert(mat_product_s(b, a, n) == idm);
                assert(a[i][j].valid()) by {
                    assert(row_valid(a[i]));
                }
                crate::product_props::lemma_mat_mul_identity_right(
                    a,
                    a.len() as nat,
                    i,
                    j,
                    n,
                );
                assert(mat_mul_entry_s(a, idm, i, j, n) == a[i][j]);
                // The second sum is multiplication by the identity on the
                // left.
                crate::product_props::lemma_mat_mul_entry_as_sum(idm, a, i, j, n);
                assert(sum_s(fi, n) == mat_mul_entry_s(idm, a, i, j, n)) by {
                    crate::product_props::lemma_sum_congruence(
                        |t: int| idm[i][t].spec_mul(a[t][j]),
                        fi,
                        n,
                    );
                }
                crate::product_props::lemma_mat_mul_identity_left(a, a.len() as nat, i, j, n);
                assert(mat_mul_entry_s(idm, a, i, j, n) == a[i][j]);
                lemma_sub_self(a[i][j]);
                assert(colsum_s(lam, g0, j, n) == sum_s(fl, n)) by {
                    crate::product_props::lemma_sum_congruence(
                        |t: int| lam[t].spec_mul(g0[t][j]),
                        fl,
                        n,
                    );
                }
            }
            lemma_null_comb_not_invertible(a, cols, lam);
            assert(false);
        }
    }
    assert forall|i: int| 0 <= i < n implies x[i] == idm[i] by {
        assert forall|k: int| 0 <= k < n implies x[i][k] == idm[i][k] by {}
        assert(x[i] =~= idm[i]);
    }
    assert(x =~= idm);
}

/// The weighted column sum as a generic sum.
proof fn lemma_colsum_as_sum<K: Numeric>(lam: Seq<K>, g: Seq<Seq<K>>, j: int, k: int)
    ensures
        colsum_s(lam, g, j, k) == sum_s(|t: int| lam[t].spec_mul(g[t][j]), k),
    decreases k,
{
    if k > 0 {
        lemma_colsum_as_sum(lam, g, j, k - 1);
    }
}

} // verus!
