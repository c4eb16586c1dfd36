use vstd::prelude::*;
use crate::numeric::Numeric;

verus! {

// Consequences of the field laws of `Numeric`, derived once and shared by the
// reduction proofs. Everything here is generic: no lemma looks at a concrete
// scalar type.

/// Adding the same value on the left can be cancelled.
pub proof fn lemma_add_cancel<K: Numeric>(a: K, b: K, c: K)
    requires
        a.valid(),
        b.valid(),
        c.valid(),
        a.spec_add(b) == a.spec_add(c),
    ensures
        b == c,
{
    K::axiom_neg(a);
    let na = a.spec_neg();
    K::axiom_add_assoc(na, a, b);
    K::axiom_add_assoc(na, a, c);
    K::axiom_add(na, a);
    K::axiom_add(a, na);
    // na + (a + b) == (na + a) + b == zero + b == b
    K::axiom_add(K::spec_zero(), b);
    K::axiom_add(b, K::spec_zero());
    K::axiom_identities();
    K::axiom_add(K::spec_zero(), c);
    K::axiom_add(c, K::spec_zero());
}

/// The additive identity absorbs multiplication.
pub proof fn lemma_mul_zero<K: Numeric>(a: K)
    requires
        a.valid(),
    ensures
        a.spec_mul(K::spec_zero()) == K::spec_zero(),
        K::spec_zero().spec_mul(a) == K::spec_zero(),
{
    K::axiom_identities();
    let z = K::spec_zero();
    K::axiom_add(z, z);
    // a * z == a * (z + z) == a * z + a * z, and a * z == a * z + z
    K::axiom_distrib(a, z, z);
    K::axiom_mul(a, z);
    K::axiom_add(a.spec_mul(z), z);
    lemma_add_cancel(a.spec_mul(z), a.spec_mul(z), z);
    K::axiom_mul(z, a);
}

/// Negating the additive identity changes nothing.
pub proof fn lemma_neg_zero<K: Numeric>()
    ensures
        K::spec_zero().spec_neg() == K::spec_zero(),
{
    K::axiom_identities();
    let z = K::spec_zero();
    K::axiom_neg(z);
    // z + neg(z) == z, and z + z == z; cancel.
    K::axiom_add(z, z);
    lemma_add_cancel(z, z.spec_neg(), z);
}

/// Subtracting a value from itself gives the additive identity.
pub proof fn lemma_sub_self<K: Numeric>(a: K)
    requires
        a.valid(),
    ensures
        a.spec_sub(a) == K::spec_zero(),
{
    K::axiom_sub(a, a);
    K::axiom_neg(a);
}

/// Subtracting the additive identity changes nothing.
pub proof fn lemma_sub_zero<K: Numeric>(a: K)
    requires
        a.valid(),
    ensures
        a.spec_sub(K::spec_zero()) == a,
{
    K::axiom_identities();
    K::axiom_sub(a, K::spec_zero());
    lemma_neg_zero::<K>();
    K::axiom_add(a, K::spec_zero());
}

/// A subtraction whose factor is zero is no change: `x - 0 * y == x`.
pub proof fn lemma_sub_mul_zero<K: Numeric>(x: K, y: K)
    requires
        x.valid(),
        y.valid(),
    ensures
        x.spec_sub(K::spec_zero().spec_mul(y)) == x,
{
    lemma_mul_zero(y);
    lemma_sub_zero(x);
}

/// Eliminating against a unit pivot clears the entry: `f - f * 1 == 0`.
pub proof fn lemma_sub_mul_one<K: Numeric>(f: K)
    requires
        f.valid(),
    ensures
        f.spec_sub(f.spec_mul(K::spec_one())) == K::spec_zero(),
{
    K::axiom_identities();
    K::axiom_mul(f, K::spec_one());
    lemma_sub_self(f);
}

/// Multiplication by a non-zero value can be cancelled.
pub proof fn lemma_mul_cancel<K: Numeric>(x: K, y: K, b: K)
    requires
        x.valid(),
        y.valid(),
        b.valid(),
        b != K::spec_zero(),
        x.spec_mul(b) == y.spec_mul(b),
    ensures
        x == y,
{
    K::axiom_identities();
    K::axiom_div(K::spec_one(), b);
    let ib = K::spec_one().spec_div(b);
    // b * ib == ib * b == 1
    K::axiom_mul(ib, b);
    // x == x * 1 == x * (b * ib) == (x * b) * ib
    K::axiom_mul_assoc(x, b, ib);
    K::axiom_mul_assoc(y, b, ib);
    K::axiom_mul(b, ib);
    K::axiom_mul(x, b.spec_mul(ib));
    K::axiom_mul(y, b.spec_mul(ib));
}

/// Dividing the additive identity gives the additive identity.
pub proof fn lemma_zero_div<K: Numeric>(b: K)
    requires
        b.valid(),
        b != K::spec_zero(),
    ensures
        K::spec_zero().spec_div(b) == K::spec_zero(),
{
    K::axiom_identities();
    K::axiom_div(K::spec_zero(), b);
    lemma_mul_zero(b);
    lemma_mul_cancel(K::spec_zero().spec_div(b), K::spec_zero(), b);
}

/// Dividing by the multiplicative identity changes nothing.
pub proof fn lemma_div_one<K: Numeric>(a: K)
    requires
        a.valid(),
    ensures
        a.spec_div(K::spec_one()) == a,
{
    K::axiom_identities();
    K::axiom_div(a, K::spec_one());
    K::axiom_mul(a.spec_div(K::spec_one()), K::spec_one());
}

/// Dividing a non-zero value by itself gives the multiplicative identity.
pub proof fn lemma_div_self<K: Numeric>(a: K)
    requires
        a.valid(),
        a != K::spec_zero(),
    ensures
        a.spec_div(a) == K::spec_one(),
{
    K::axiom_identities();
    K::axiom_div(a, a);
    K::axiom_mul(K::spec_one(), a);
    K::axiom_mul(a, K::spec_one());
    lemma_mul_cancel(a.spec_div(a), K::spec_one(), a);
}


/// The additive inverse is unique: whatever cancels `a` is `neg(a)`.
pub proof fn lemma_neg_unique<K: Numeric>(a: K, b: K)
    requires
        a.valid(),
        b.valid(),
        a.spec_add(b) == K::spec_zero(),
    ensures
        b == a.spec_neg(),
{
    K::axiom_neg(a);
    lemma_add_cancel(a, b, a.spec_neg());
}

/// Negation passes through a product: `(-y) * z == -(y * z)`.
pub proof fn lemma_neg_mul<K: Numeric>(y: K, z: K)
    requires
        y.valid(),
        z.valid(),
    ensures
        y.spec_neg().spec_mul(z) == y.spec_mul(z).spec_neg(),
{
    K::axiom_neg(y);
    K::axiom_mul(y, z);
    K::axiom_mul(y.spec_neg(), z);
    // (y + (-y)) * z == 0 * z == 0, and it distributes.
    K::axiom_mul(z, y);
    K::axiom_mul(z, y.spec_neg());
    K::axiom_distrib(z, y, y.spec_neg());
    lemma_mul_zero(z);
    assert(y.spec_mul(z).spec_add(y.spec_neg().spec_mul(z)) == K::spec_zero());
    lemma_neg_unique(y.spec_mul(z), y.spec_neg().spec_mul(z));
}

/// Subtraction distributes over a product on the right:
/// `(x - y) * z == x * z - y * z`.
pub proof fn lemma_sub_mul_distrib<K: Numeric>(x: K, y: K, z: K)
    requires
        x.valid(),
        y.valid(),
        z.valid(),
    ensures
        x.spec_sub(y).spec_mul(z) == x.spec_mul(z).spec_sub(y.spec_mul(z)),
{
    K::axiom_neg(y);
    K::axiom_sub(x, y);
    // (x + (-y)) * z == x * z + (-y) * z == x * z + (-(y * z))
    K::axiom_mul(x.spec_add(y.spec_neg()), z);
    K::axiom_mul(z, x.spec_add(y.spec_neg()));
    K::axiom_distrib(z, x, y.spec_neg());
    K::axiom_mul(z, x);
    K::axiom_mul(z, y.spec_neg());
    lemma_neg_mul(y, z);
    K::axiom_mul(x, z);
    K::axiom_mul(y, z);
    K::axiom_sub(x.spec_mul(z), y.spec_mul(z));
}

/// Addition regrouped four ways: `(a + b) + (c + d) == (a + c) + (b + d)`.
pub proof fn lemma_add_regroup<K: Numeric>(a: K, b: K, c: K, d: K)
    requires
        a.valid(),
        b.valid(),
        c.valid(),
        d.valid(),
    ensures
        a.spec_add(b).spec_add(c.spec_add(d)) == a.spec_add(c).spec_add(b.spec_add(d)),
{
    K::axiom_add(c, d);
    K::axiom_add(b, c);
    K::axiom_add(b, d);
    K::axiom_add(c, b.spec_add(d));
    K::axiom_add_assoc(b, c, d);
    K::axiom_add_assoc(c, b, d);
    // (a + b) + (c + d) == a + (b + (c + d)) == a + ((b + c) + d)
    K::axiom_add(a, b);
    K::axiom_add_assoc(a, b, c.spec_add(d));
    // b + (c + d) == (b + c) + d == (c + b) + d == c + (b + d)
    assert(b.spec_add(c.spec_add(d)) == c.spec_add(b.spec_add(d)));
    K::axiom_add(a, c);
    K::axiom_add_assoc(a, c, b.spec_add(d));
}

/// Two differences add to the difference of the sums:
/// `(x - y) + (u - v) == (x + u) - (y + v)`.
pub proof fn lemma_sub_add_exchange<K: Numeric>(x: K, y: K, u: K, v: K)
    requires
        x.valid(),
        y.valid(),
        u.valid(),
        v.valid(),
    ensures
        x.spec_sub(y).spec_add(u.spec_sub(v)) == x.spec_add(u).spec_sub(y.spec_add(v)),
{
    K::axiom_neg(y);
    K::axiom_neg(v);
    K::axiom_sub(x, y);
    K::axiom_sub(u, v);
    lemma_add_regroup(x, y.spec_neg(), u, v.spec_neg());
    // -(y) + -(v) == -(y + v)
    K::axiom_add(y, v);
    K::axiom_add(y.spec_neg(), v.spec_neg());
    assert(y.spec_add(v).spec_add(y.spec_neg().spec_add(v.spec_neg())) == K::spec_zero()) by {
        lemma_add_regroup(y, v, y.spec_neg(), v.spec_neg());
        K::axiom_neg(v);
        K::axiom_identities();
        K::axiom_add(K::spec_zero(), K::spec_zero());
    }
    lemma_neg_unique(y.spec_add(v), y.spec_neg().spec_add(v.spec_neg()));
    K::axiom_add(x, u);
    K::axiom_sub(x.spec_add(u), y.spec_add(v));
}

/// Division distributes over a sum: `(a + b) / d == a / d + b / d`.
pub proof fn lemma_div_add<K: Numeric>(a: K, b: K, d: K)
    requires
        a.valid(),
        b.valid(),
        d.valid(),
        d != K::spec_zero(),
    ensures
        a.spec_add(b).spec_div(d) == a.spec_div(d).spec_add(b.spec_div(d)),
{
    K::axiom_add(a, b);
    K::axiom_div(a.spec_add(b), d);
    K::axiom_div(a, d);
    K::axiom_div(b, d);
    let ad = a.spec_div(d);
    let bd = b.spec_div(d);
    K::axiom_add(ad, bd);
    // (ad + bd) * d == ad * d + bd * d == a + b
    K::axiom_mul(ad.spec_add(bd), d);
    K::axiom_mul(d, ad.spec_add(bd));
    K::axiom_distrib(d, ad, bd);
    K::axiom_mul(d, ad);
    K::axiom_mul(d, bd);
    K::axiom_mul(ad, d);
    K::axiom_mul(bd, d);
    lemma_mul_cancel(a.spec_add(b).spec_div(d), ad.spec_add(bd), d);
}

/// A quotient absorbs a factor: `(x / d) * y == (x * y) / d`.
pub proof fn lemma_div_mul_assoc<K: Numeric>(x: K, y: K, d: K)
    requires
        x.valid(),
        y.valid(),
        d.valid(),
        d != K::spec_zero(),
    ensures
        x.spec_div(d).spec_mul(y) == x.spec_mul(y).spec_div(d),
{
    K::axiom_div(x, d);
    let xd = x.spec_div(d);
    K::axiom_mul(x, y);
    K::axiom_div(x.spec_mul(y), d);
    K::axiom_mul(xd, y);
    // (xd * y) * d == xd * (y * d) == xd * (d * y) == (xd * d) * y == x * y
    K::axiom_mul_assoc(xd, y, d);
    K::axiom_mul(y, d);
    K::axiom_mul_assoc(xd, d, y);
    K::axiom_mul(xd, d);
    K::axiom_mul(x.spec_mul(y).spec_div(d), d);
    lemma_mul_cancel(xd.spec_mul(y), x.spec_mul(y).spec_div(d), d);
}


/// A field has no zero divisors: a product with a non-zero factor vanishes
/// only when the other factor does.
pub proof fn lemma_mul_integral<K: Numeric>(c: K, x: K)
    requires
        c.valid(),
        x.valid(),
        c != K::spec_zero(),
        x.spec_mul(c) == K::spec_zero(),
    ensures
        x == K::spec_zero(),
{
    K::axiom_identities();
    lemma_mul_zero(c);
    K::axiom_mul(K::spec_zero(), c);
    lemma_mul_cancel(x, K::spec_zero(), c);
}


/// Adding back a difference restores the value: `a + (b - a) == b`.
pub proof fn lemma_add_sub_restore<K: Numeric>(a: K, b: K)
    requires
        a.valid(),
        b.valid(),
    ensures
        a.spec_add(b.spec_sub(a)) == b,
{
    K::axiom_identities();
    K::axiom_neg(a);
    K::axiom_sub(b, a);
    // a + (b + (-a)) == b + (a + (-a)) == b
    K::axiom_add(b, a.spec_neg());
    K::axiom_add(a, b.spec_add(a.spec_neg()));
    K::axiom_add_assoc(b, a.spec_neg(), a);
    K::axiom_add(a.spec_neg(), a);
    K::axiom_add(a, a.spec_neg());
    K::axiom_add(b, K::spec_zero());
    assert(b.spec_add(a.spec_neg()).spec_add(a) == b);
    K::axiom_add(b.spec_add(a.spec_neg()), a);
}

/// Multiplication distributes over subtraction on the left:
/// `c * (x - y) == c * x - c * y`.
pub proof fn lemma_mul_sub<K: Numeric>(c: K, x: K, y: K)
    requires
        c.valid(),
        x.valid(),
        y.valid(),
    ensures
        c.spec_mul(x.spec_sub(y)) == c.spec_mul(x).spec_sub(c.spec_mul(y)),
{
    K::axiom_sub(x, y);
    K::axiom_neg(y);
    lemma_sub_mul_distrib(x, y, c);
    K::axiom_mul(x.spec_sub(y), c);
    K::axiom_mul(x, c);
    K::axiom_mul(y, c);
}

/// Addition distributes over a product on the right:
/// `(a + b) * c == a * c + b * c`.
pub proof fn lemma_add_mul_distrib<K: Numeric>(a: K, b: K, c: K)
    requires
        a.valid(),
        b.valid(),
        c.valid(),
    ensures
        a.spec_add(b).spec_mul(c) == a.spec_mul(c).spec_add(b.spec_mul(c)),
{
    K::axiom_add(a, b);
    K::axiom_mul(a.spec_add(b), c);
    K::axiom_distrib(c, a, b);
    K::axiom_mul(c, a);
    K::axiom_mul(c, b);
    K::axiom_mul(a, c);
    K::axiom_mul(b, c);
}

/// Opposite differences cancel: `(x - y) + (y - x) == 0`.
pub proof fn lemma_sub_opposites<K: Numeric>(x: K, y: K)
    requires
        x.valid(),
        y.valid(),
    ensures
        x.spec_sub(y).spec_add(y.spec_sub(x)) == K::spec_zero(),
{
    lemma_sub_add_exchange(x, y, y, x);
    K::axiom_add(x, y);
    K::axiom_add(y, x);
    lemma_sub_self(x.spec_add(y));
}


/// Adding then subtracting the same value cancels: `(a + b) - a == b`.
pub proof fn lemma_add_sub_cancel<K: Numeric>(a: K, b: K)
    requires
        a.valid(),
        b.valid(),
    ensures
        a.spec_add(b).spec_sub(a) == b,
{
    K::axiom_add(a, b);
    lemma_add_sub_restore(a, a.spec_add(b));
    K::axiom_sub(a.spec_add(b), a);
    K::axiom_neg(a);
    K::axiom_add(b, a.spec_neg());
    lemma_add_cancel(a, a.spec_add(b).spec_sub(a), b);
}

} // verus!
