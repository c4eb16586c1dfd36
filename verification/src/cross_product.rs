use vstd::prelude::*;
use crate::numeric::Numeric;
use crate::vector::Vector;

verus! {

/// One coordinate of the cross product: `u[a] * v[b] - u[b] * v[a]`.
pub open spec fn cross_entry_s<K: Numeric>(u: Seq<K>, v: Seq<K>, a: int, b: int) -> K {
    u[a].spec_mul(v[b]).spec_sub(u[b].spec_mul(v[a]))
}

/// The cross product of two vectors of length three.
pub fn cross_product<K: Numeric>(u: &Vector<K>, v: &Vector<K>) -> (r: Vector<K>)
    requires
        u.wf(),
        v.wf(),
        u@.len() == 3,
        v@.len() == 3,
    ensures
        r.wf(),
        r@.len() == 3,
        r@[0] == cross_entry_s(u@, v@, 1, 2),
        r@[1] == cross_entry_s(u@, v@, 2, 0),
        r@[2] == cross_entry_s(u@, v@, 0, 1),
{
    let e0 = cross_term(u.values[1], v.values[2], u.values[2], v.values[1]);
    let e1 = cross_term(u.values[2], v.values[0], u.values[0], v.values[2]);
    let e2 = cross_term(u.values[0], v.values[1], u.values[1], v.values[0]);
    let mut nv: Vec<K> = Vec::new();
    nv.push(e0);
    nv.push(e1);
    nv.push(e2);
    Vector { values: nv }
}

/// The difference of two products, `x1 * y1 - x2 * y2`.
fn cross_term<K: Numeric>(x1: K, y1: K, x2: K, y2: K) -> (r: K)
    requires
        x1.valid(),
        y1.valid(),
        x2.valid(),
        y2.valid(),
    ensures
        r == x1.spec_mul(y1).spec_sub(x2.spec_mul(y2)),
        r.valid(),
{
    proof {
        K::axiom_mul(x1, y1);
        K::axiom_mul(x2, y2);
        K::axiom_sub(x1.spec_mul(y1), x2.spec_mul(y2));
    }
    x1.mul(y1).sub(x2.mul(y2))
}

impl<K: Numeric> Vector<K> {
    /// The cross product with another vector of length three.
    pub fn cross_product(&self, other: &Vector<K>) -> (r: Vector<K>)
        requires
            self.wf(),
            other.wf(),
            self@.len() == 3,
            other@.len() == 3,
        ensures
            r.wf(),
            r@.len() == 3,
            r@[0] == cross_entry_s(self@, other@, 1, 2),
            r@[1] == cross_entry_s(self@, other@, 2, 0),
            r@[2] == cross_entry_s(self@, other@, 0, 1),
    {
        cross_product(self, other)
    }
}

} // verus!
