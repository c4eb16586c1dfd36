use vstd::prelude::*;
use crate::numeric::Numeric;
use crate::field::{lemma_add_regroup, lemma_mul_zero, lemma_sub_add_exchange};
use crate::matrix_multiplication::mat_mul_entry_s;
use crate::inverse_props::mat_product_s;
use crate::echelon_props::identity_s;

verus! {

// Finite sums of scalars, general enough to exchange summation order: what
// associativity of the matrix product rests on.

/// The sum of the first `k` values of `f`.
pub open spec fn sum_s<K: Numeric>(f: spec_fn(int) -> K, k: int) -> K
    decreases k,
{
    if k <= 0 {
        K::spec_zero()
    } else {
        sum_s(f, k - 1).spec_add(f(k - 1))
    }
}

/// Sums of scalars are scalars.
pub proof fn lemma_sum_valid<K: Numeric>(f: spec_fn(int) -> K, k: int)
    requires
        forall|t: int| 0 <= t < k ==> (#[trigger] f(t)).valid(),
    ensures
        sum_s(f, k).valid(),
    decreases k,
{
    K::axiom_identities();
    if k > 0 {
        lemma_sum_valid(f, k - 1);
        K::axiom_add(sum_s(f, k - 1), f(k - 1));
    }
}

/// Two sums with equal terms are equal.
pub proof fn lemma_sum_congruence<K: Numeric>(f: spec_fn(int) -> K, g: spec_fn(int) -> K, k: int)
    requires
        forall|t: int| 0 <= t < k ==> #[trigger] f(t) == g(t),
    ensures
        sum_s(f, k) == sum_s(g, k),
    decreases k,
{
    if k > 0 {
        lemma_sum_congruence(f, g, k - 1);
    }
}

/// A sum of term-wise sums splits into two sums.
proof fn lemma_sum_add<K: Numeric>(
    f: spec_fn(int) -> K,
    g: spec_fn(int) -> K,
    h: spec_fn(int) -> K,
    k: int,
)
    requires
        forall|t: int| 0 <= t < k ==> (#[trigger] f(t)).valid(),
        forall|t: int| 0 <= t < k ==> (#[trigger] g(t)).valid(),
        forall|t: int| 0 <= t < k ==> #[trigger] h(t) == f(t).spec_add(g(t)),
    ensures
        sum_s(h, k) == sum_s(f, k).spec_add(sum_s(g, k)),
    decreases k,
{
    K::axiom_identities();
    if k <= 0 {
        K::axiom_add(K::spec_zero(), K::spec_zero());
    } else {
        lemma_sum_add(f, g, h, k - 1);
        lemma_sum_valid(f, k - 1);
        lemma_sum_valid(g, k - 1);
        // (F + G) + (f + g) == (F + f) + (G + g)
        lemma_add_regroup(sum_s(f, k - 1), sum_s(g, k - 1), f(k - 1), g(k - 1));
    }
}

/// A sum of term-wise differences is the difference of the sums.
pub proof fn lemma_sum_sub<K: Numeric>(
    f: spec_fn(int) -> K,
    g: spec_fn(int) -> K,
    h: spec_fn(int) -> K,
    k: int,
)
    requires
        forall|t: int| 0 <= t < k ==> (#[trigger] f(t)).valid(),
        forall|t: int| 0 <= t < k ==> (#[trigger] g(t)).valid(),
        forall|t: int| 0 <= t < k ==> #[trigger] h(t) == f(t).spec_sub(g(t)),
    ensures
        sum_s(h, k) == sum_s(f, k).spec_sub(sum_s(g, k)),
    decreases k,
{
    K::axiom_identities();
    if k <= 0 {
        crate::field::lemma_sub_zero(K::spec_zero());
    } else {
        lemma_sum_sub(f, g, h, k - 1);
        lemma_sum_valid(f, k - 1);
        lemma_sum_valid(g, k - 1);
        lemma_sub_add_exchange(sum_s(f, k - 1), sum_s(g, k - 1), f(k - 1), g(k - 1));
    }
}

/// A common right factor moves out of a sum.
proof fn lemma_sum_factor_right<K: Numeric>(
    f: spec_fn(int) -> K,
    g: spec_fn(int) -> K,
    c: K,
    k: int,
)
    requires
        c.valid(),
        forall|t: int| 0 <= t < k ==> (#[trigger] f(t)).valid(),
        forall|t: int| 0 <= t < k ==> #[trigger] g(t) == f(t).spec_mul(c),
    ensures
        sum_s(g, k) == sum_s(f, k).spec_mul(c),
    decreases k,
{
    K::axiom_identities();
    if k <= 0 {
        lemma_mul_zero(c);
        K::axiom_mul(K::spec_zero(), c);
    } else {
        lemma_sum_factor_right(f, g, c, k - 1);
        lemma_sum_valid(f, k - 1);
        // (F + f) * c == F * c + f * c
        crate::field::lemma_add_mul_distrib(sum_s(f, k - 1), f(k - 1), c);
    }
}

/// A common left factor moves out of a sum.
proof fn lemma_sum_factor_left<K: Numeric>(
    f: spec_fn(int) -> K,
    g: spec_fn(int) -> K,
    c: K,
    k: int,
)
    requires
        c.valid(),
        forall|t: int| 0 <= t < k ==> (#[trigger] f(t)).valid(),
        forall|t: int| 0 <= t < k ==> #[trigger] g(t) == c.spec_mul(f(t)),
    ensures
        sum_s(g, k) == c.spec_mul(sum_s(f, k)),
    decreases k,
{
    K::axiom_identities();
    if k <= 0 {
        lemma_mul_zero(c);
    } else {
        lemma_sum_factor_left(f, g, c, k - 1);
        lemma_sum_valid(f, k - 1);
        K::axiom_distrib(c, sum_s(f, k - 1), f(k - 1));
    }
}

/// Exchanging the order of a double sum.
proof fn lemma_sum_exchange<K: Numeric>(f: spec_fn(int, int) -> K, m: int, n: int)
    requires
        forall|i: int, j: int| 0 <= i < m && 0 <= j < n ==> (#[trigger] f(i, j)).valid(),
    ensures
        sum_s(|i: int| sum_s(|j: int| f(i, j), n), m) == sum_s(
            |j: int| sum_s(|i: int| f(i, j), m),
            n,
        ),
    decreases m,
{
    K::axiom_identities();
    let rows = |i: int| sum_s(|j: int| f(i, j), n);
    let colsfull = |j: int| sum_s(|i: int| f(i, j), m);
    if m <= 0 {
        assert forall|j: int| 0 <= j < n implies #[trigger] colsfull(j) == K::spec_zero() by {}
        lemma_sum_zero_terms::<K>(colsfull, n);
    } else {
        lemma_sum_exchange(f, m - 1, n);
        let colsprev = |j: int| sum_s(|i: int| f(i, j), m - 1);
        let last = |j: int| f(m - 1, j);
        assert forall|j: int| 0 <= j < n implies #[trigger] colsfull(j) == colsprev(j).spec_add(
            last(j),
        ) by {
            assert(sum_s(|i: int| f(i, j), m) == sum_s(|i: int| f(i, j), m - 1).spec_add(
                f(m - 1, j),
            ));
        }
        assert forall|j: int| 0 <= j < n implies (#[trigger] colsprev(j)).valid() by {
            lemma_sum_valid(|i: int| f(i, j), m - 1);
        }
        assert forall|j: int| 0 <= j < n implies (#[trigger] last(j)).valid() by {}
        lemma_sum_add(colsprev, last, colsfull, n);
        assert(sum_s(rows, m) == sum_s(rows, m - 1).spec_add(rows(m - 1)));
        assert(sum_s(rows, m - 1) == sum_s(colsprev, n));
    }
}

/// A sum of zeros is zero.
proof fn lemma_sum_zero_terms<K: Numeric>(f: spec_fn(int) -> K, k: int)
    requires
        forall|t: int| 0 <= t < k ==> #[trigger] f(t) == K::spec_zero(),
    ensures
        sum_s(f, k) == K::spec_zero(),
    decreases k,
{
    K::axiom_identities();
    if k > 0 {
        lemma_sum_zero_terms(f, k - 1);
        K::axiom_add(K::spec_zero(), K::spec_zero());
    }
}

/// Matrix product entries are the generic sums.
pub proof fn lemma_mat_mul_entry_as_sum<K: Numeric>(
    x: Seq<Seq<K>>,
    y: Seq<Seq<K>>,
    i: int,
    j: int,
    k: int,
)
    ensures
        mat_mul_entry_s(x, y, i, j, k) == sum_s(|t: int| x[i][t].spec_mul(y[t][j]), k),
    decreases k,
{
    if k > 0 {
        lemma_mat_mul_entry_as_sum(x, y, i, j, k - 1);
    }
}


/// Entries of a product of grids with scalar entries are scalars.
pub proof fn lemma_mat_mul_entry_valid<K: Numeric>(
    x: Seq<Seq<K>>,
    y: Seq<Seq<K>>,
    i: int,
    j: int,
    k: int,
)
    requires
        forall|t: int| 0 <= t < k ==> (#[trigger] x[i][t]).valid(),
        forall|t: int| 0 <= t < k ==> (#[trigger] y[t][j]).valid(),
    ensures
        mat_mul_entry_s(x, y, i, j, k).valid(),
{
    lemma_mat_mul_entry_as_sum(x, y, i, j, k);
    let f = |t: int| x[i][t].spec_mul(y[t][j]);
    assert forall|t: int| 0 <= t < k implies (#[trigger] f(t)).valid() by {
        K::axiom_mul(x[i][t], y[t][j]);
    }
    lemma_sum_valid(f, k);
}

/// The matrix product is associative, entry by entry: multiplying `(a b)`
/// by `c` reads the same as multiplying `a` by `(b c)`.
pub proof fn lemma_product_assoc_entry<K: Numeric>(
    a: Seq<Seq<K>>,
    b: Seq<Seq<K>>,
    c: Seq<Seq<K>>,
    n: int,
    i: int,
    j: int,
)
    requires
        0 <= n,
        0 <= i < n,
        0 <= j < n,
        forall|l: int| 0 <= l < n ==> (#[trigger] a[i][l]).valid(),
        forall|l: int, k: int| 0 <= l < n && 0 <= k < n ==> (#[trigger] b[l][k]).valid(),
        forall|k: int| 0 <= k < n ==> (#[trigger] c[k][j]).valid(),
    ensures
        mat_mul_entry_s(mat_product_s(a, b, n), c, i, j, n) == mat_mul_entry_s(
            a,
            mat_product_s(b, c, n),
            i,
            j,
            n,
        ),
{
    K::axiom_identities();
    let ab = mat_product_s(a, b, n);
    let bc = mat_product_s(b, c, n);
    let f2 = |l: int, k: int| a[i][l].spec_mul(b[l][k]).spec_mul(c[k][j]);
    assert forall|l: int, k: int| 0 <= l < n && 0 <= k < n implies (#[trigger] f2(l, k)).valid()
    by {
        K::axiom_mul(a[i][l], b[l][k]);
        K::axiom_mul(a[i][l].spec_mul(b[l][k]), c[k][j]);
    }
    // The left side is the double sum, rows of l first.
    lemma_mat_mul_entry_as_sum(ab, c, i, j, n);
    let lf = |k: int| ab[i][k].spec_mul(c[k][j]);
    let lcols = |k: int| sum_s(|l: int| f2(l, k), n);
    assert forall|k: int| 0 <= k < n implies #[trigger] lf(k) == lcols(k) by {
        assert(ab[i][k] == mat_mul_entry_s(a, b, i, k, n));
        lemma_mat_mul_entry_as_sum(a, b, i, k, n);
        let g = |l: int| a[i][l].spec_mul(b[l][k]);
        assert forall|l: int| 0 <= l < n implies (#[trigger] g(l)).valid() by {
            K::axiom_mul(a[i][l], b[l][k]);
        }
        lemma_sum_factor_right(g, |l: int| f2(l, k), c[k][j], n);
    }
    lemma_sum_congruence(lf, lcols, n);
    lemma_sum_exchange(f2, n, n);
    assert(sum_s(|l: int| sum_s(|k: int| f2(l, k), n), n) == sum_s(
        |k: int| sum_s(|l: int| f2(l, k), n),
        n,
    ));
    // The right side is the same double sum, columns of k first.
    lemma_mat_mul_entry_as_sum(a, bc, i, j, n);
    let rf = |l: int| a[i][l].spec_mul(bc[l][j]);
    let rrows = |l: int| sum_s(|k: int| f2(l, k), n);
    assert forall|l: int| 0 <= l < n implies #[trigger] rf(l) == rrows(l) by {
        assert(bc[l][j] == mat_mul_entry_s(b, c, l, j, n));
        lemma_mat_mul_entry_as_sum(b, c, l, j, n);
        let g = |k: int| b[l][k].spec_mul(c[k][j]);
        assert forall|k: int| 0 <= k < n implies (#[trigger] g(k)).valid() by {
            K::axiom_mul(b[l][k], c[k][j]);
        }
        lemma_sum_factor_left(g, |k: int| a[i][l].spec_mul(g(k)), a[i][l], n);
        assert forall|k: int| 0 <= k < n implies #[trigger] f2(l, k) == a[i][l].spec_mul(g(k))
        by {
            K::axiom_mul_assoc(a[i][l], b[l][k], c[k][j]);
        }
        lemma_sum_congruence(|k: int| f2(l, k), |k: int| a[i][l].spec_mul(g(k)), n);
    }
    lemma_sum_congruence(rf, rrows, n);
}

/// Multiplying by the identity on the right returns the entry.
pub proof fn lemma_mat_mul_identity_right<K: Numeric>(
    a: Seq<Seq<K>>,
    n: nat,
    i: int,
    j: int,
    k: int,
)
    requires
        0 <= j < n,
        k <= n,
        forall|t: int| 0 <= t < k ==> (#[trigger] a[i][t]).valid(),
        a[i][j].valid(),
    ensures
        mat_mul_entry_s(a, identity_s::<K>(n), i, j, k) == if j < k {
            a[i][j]
        } else {
            K::spec_zero()
        },
    decreases k,
{
    K::axiom_identities();
    if k > 0 {
        lemma_mat_mul_identity_right(a, n, i, j, k - 1);
        if k - 1 == j {
            assert(identity_s::<K>(n)[k - 1][j] == K::spec_one());
            K::axiom_mul(a[i][j], K::spec_one());
            K::axiom_add(a[i][j], K::spec_zero());
            K::axiom_add(K::spec_zero(), a[i][j]);
        } else {
            assert(identity_s::<K>(n)[k - 1][j] == K::spec_zero());
            lemma_mul_zero(a[i][k - 1]);
            if j < k - 1 {
                K::axiom_add(a[i][j], K::spec_zero());
            } else {
                K::axiom_add(K::spec_zero(), K::spec_zero());
            }
        }
    }
}

/// Multiplying by the identity on the left returns the entry.
pub proof fn lemma_mat_mul_identity_left<K: Numeric>(
    a: Seq<Seq<K>>,
    n: nat,
    i: int,
    j: int,
    k: int,
)
    requires
        0 <= i < n,
        k <= n,
        forall|t: int| 0 <= t < k ==> (#[trigger] a[t][j]).valid(),
        a[i][j].valid(),
    ensures
        mat_mul_entry_s(identity_s::<K>(n), a, i, j, k) == if i < k {
            a[i][j]
        } else {
            K::spec_zero()
        },
    decreases k,
{
    K::axiom_identities();
    if k > 0 {
        lemma_mat_mul_identity_left(a, n, i, j, k - 1);
        if k - 1 == i {
            assert(identity_s::<K>(n)[i][k - 1] == K::spec_one());
            K::axiom_mul(a[i][j], K::spec_one());
            K::axiom_mul(K::spec_one(), a[i][j]);
            K::axiom_add(a[i][j], K::spec_zero());
            K::axiom_add(K::spec_zero(), a[i][j]);
        } else {
            assert(identity_s::<K>(n)[i][k - 1] == K::spec_zero());
            lemma_mul_zero(a[k - 1][j]);
            if i < k - 1 {
                K::axiom_add(a[i][j], K::spec_zero());
            } else {
                K::axiom_add(K::spec_zero(), K::spec_zero());
            }
        }
    }
}

} // verus!
