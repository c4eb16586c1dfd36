use vstd::prelude::*;
use crate::numeric::Numeric;
use crate::matrix::{Matrix, row_add_s, row_scale_s, row_sub_s, row_valid};

verus! {

/// The dot product of the first `k` entries of two rows, summed left to
/// right from the additive identity.
pub open spec fn dot_s<K: Numeric>(a: Seq<K>, b: Seq<K>, k: int) -> K
    decreases k,
{
    if k <= 0 {
        K::spec_zero()
    } else {
        dot_s(a, b, k - 1).spec_add(a[k - 1].spec_mul(b[k - 1]))
    }
}

/// Partial dot products of scalar rows are scalars.
pub proof fn lemma_dot_valid<K: Numeric>(a: Seq<K>, b: Seq<K>, k: int)
    requires
        row_valid(a),
        row_valid(b),
        k <= a.len(),
        k <= b.len(),
    ensures
        dot_s(a, b, k).valid(),
    decreases k,
{
    K::axiom_identities();
    if k > 0 {
        lemma_dot_valid(a, b, k - 1);
        K::axiom_mul(a[k - 1], b[k - 1]);
        K::axiom_add(dot_s(a, b, k - 1), a[k - 1].spec_mul(b[k - 1]));
    }
}

/// An ordered sequence of scalars.
#[derive(Debug, PartialEq)]
pub struct Vector<K: Numeric> {
    pub values: Vec<K>,
}

impl<K: Numeric> View for Vector<K> {
    type V = Seq<K>;

    open spec fn view(&self) -> Seq<K> {
        self.values@
    }
}

impl<K: Numeric> Clone for Vector<K> {
    /// A deep copy holding the same entries.
    fn clone(&self) -> (r: Self)
        ensures
            r@ == self@,
    {
        Vector { values: Matrix::<K>::copy_row(&self.values) }
    }
}

impl<K: Numeric> Vector<K> {
    /// Every entry is a scalar.
    pub open spec fn wf(self) -> bool {
        row_valid(self@)
    }

    /// Builds a vector from a slice of scalars.
    pub fn from(values: &[K]) -> (r: Self)
        ensures
            r@ == values@,
    {
        let mut nv: Vec<K> = Vec::new();
        let n = values.len();
        let mut i: usize = 0;
        while i < n
            invariant
                i <= n,
                n == values@.len(),
                nv@ == values@.subrange(0, i as int),
            decreases n - i,
        {
            nv.push(values[i]);
            i += 1;
        }
        proof {
            assert(nv@ =~= values@);
        }
        Vector { values: nv }
    }

    /// How many entries the vector has.
    pub fn len(&self) -> (r: usize)
        ensures
            r == self@.len(),
    {
        self.values.len()
    }

    /// Entry-wise sum: adds `v` onto `self`.
    pub fn add(&mut self, v: &Vector<K>)
        requires
            old(self).wf(),
            v.wf(),
            old(self)@.len() == v@.len(),
        ensures
            final(self).wf(),
            final(self)@ == row_add_s(old(self)@, v@),
    {
        let nr = Matrix::<K>::row_add(&self.values, &v.values);
        self.values = nr;
    }

    /// Entry-wise difference: subtracts `v` from `self`.
    pub fn sub(&mut self, v: &Vector<K>)
        requires
            old(self).wf(),
            v.wf(),
            old(self)@.len() == v@.len(),
        ensures
            final(self).wf(),
            final(self)@ == row_sub_s(old(self)@, v@),
    {
        let nr = Matrix::<K>::row_sub(&self.values, &v.values);
        self.values = nr;
    }

    /// Entry-wise scaling by `a`.
    pub fn scl(&mut self, a: K)
        requires
            old(self).wf(),
            a.valid(),
        ensures
            final(self).wf(),
            final(self)@ == row_scale_s(old(self)@, a),
    {
        let nr = Matrix::<K>::row_scale(&self.values, a);
        self.values = nr;
    }

    /// The dot product of two vectors of one length.
    pub fn dot(&self, v: &Vector<K>) -> (r: K)
        requires
            self.wf(),
            v.wf(),
            self@.len() == v@.len(),
        ensures
            r == dot_s(self@, v@, self@.len() as int),
            r.valid(),
    {
        let n = self.values.len();
        let mut acc = K::zero();
        proof {
            K::axiom_identities();
        }
        let mut i: usize = 0;
        while i < n
            invariant
                i <= n,
                n == self@.len(),
                self@.len() == v@.len(),
                self.wf(),
                v.wf(),
                acc == dot_s(self@, v@, i as int),
                acc.valid(),
            decreases n - i,
        {
            let x = self.values[i];
            let y = v.values[i];
            proof {
                K::axiom_mul(x, y);
                K::axiom_add(acc, x.spec_mul(y));
            }
            acc = acc.add(x.mul(y));
            i += 1;
        }
        acc
    }
}

} // verus!
