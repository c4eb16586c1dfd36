use vstd::prelude::*;
use crate::numeric::Numeric;
use crate::vector::Vector;

verus! {

/// Entry `j` of the combination of the first `k` vectors, summed left to
/// right: `coefs[0] * u[0][j] + ... + coefs[k - 1] * u[k - 1][j]`.
pub open spec fn lin_comb_entry_s<K: Numeric>(
    u: Seq<Vector<K>>,
    coefs: Seq<K>,
    j: int,
    k: int,
) -> K
    decreases k,
{
    if k <= 0 {
        K::spec_zero()
    } else {
        lin_comb_entry_s(u, coefs, j, k - 1).spec_add(coefs[k - 1].spec_mul(u[k - 1]@[j]))
    }
}

/// The linear combination of vectors of one length by as many scalars.
pub fn linear_combination<K: Numeric>(u: &[Vector<K>], coefs: &[K]) -> (r: Vector<K>)
    requires
        u@.len() == coefs@.len(),
        u@.len() > 0,
        forall|i: int| 0 <= i < u@.len() ==> (#[trigger] u@[i]).wf(),
        forall|i: int| 0 <= i < u@.len() ==> (#[trigger] u@[i])@.len() == u@[0]@.len(),
        forall|i: int| 0 <= i < coefs@.len() ==> (#[trigger] coefs@[i]).valid(),
    ensures
        r.wf(),
        r@.len() == u@[0]@.len(),
        forall|j: int|
            0 <= j < r@.len() ==> #[trigger] r@[j] == lin_comb_entry_s(
                u@,
                coefs@,
                j,
                u@.len() as int,
            ),
{
    let cols = u[0].values.len();
    let n = u.len();
    let mut nv: Vec<K> = Vec::new();
    let mut j: usize = 0;
    while j < cols
        invariant
            j <= cols,
            n == u@.len(),
            u@.len() == coefs@.len(),
            u@.len() > 0,
            cols == u@[0]@.len(),
            forall|i: int| 0 <= i < u@.len() ==> (#[trigger] u@[i]).wf(),
            forall|i: int| 0 <= i < u@.len() ==> (#[trigger] u@[i])@.len() == cols,
            forall|i: int| 0 <= i < coefs@.len() ==> (#[trigger] coefs@[i]).valid(),
            nv@.len() == j,
            forall|t: int|
                0 <= t < j ==> #[trigger] nv@[t] == lin_comb_entry_s(u@, coefs@, t, n as int)
                    && nv@[t].valid(),
        decreases cols - j,
    {
        let mut acc = K::zero();
        proof {
            K::axiom_identities();
        }
        let mut i: usize = 0;
        while i < n
            invariant
                i <= n,
                j < cols,
                n == u@.len(),
                u@.len() == coefs@.len(),
                cols == u@[0]@.len(),
                forall|t: int| 0 <= t < u@.len() ==> (#[trigger] u@[t]).wf(),
                forall|t: int| 0 <= t < u@.len() ==> (#[trigger] u@[t])@.len() == cols,
                forall|t: int| 0 <= t < coefs@.len() ==> (#[trigger] coefs@[t]).valid(),
                acc == lin_comb_entry_s(u@, coefs@, j as int, i as int),
                acc.valid(),
            decreases n - i,
        {
            let c = coefs[i];
            let x = u[i].values[j];
            proof {
                assert(u@[i as int].wf());
                K::axiom_mul(c, x);
                K::axiom_add(acc, c.spec_mul(x));
            }
            acc = acc.add(c.mul(x));
            i += 1;
        }
        nv.push(acc);
        j += 1;
    }
    Vector { values: nv }
}

} // verus!
