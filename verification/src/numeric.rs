use vstd::prelude::*;

verus! {

/// The arithmetic capability set a scalar type must offer to take part in row
/// reduction: field operations with their identities, exactly detected zero,
/// and an order usable to read off a sign.
///
/// Each operation exists twice: a specification-level function that names the
/// mathematical value, and an executable method proved to return exactly that
/// value. The `axiom_*` obligations are the field laws; every algorithm in
/// this crate is proved from them alone, so it is correct for any
/// implementation that discharges them.
///
/// `valid` bounds the values the laws speak of: a carrier type may hold more
/// representations than there are scalars (a residue kept in a wider machine
/// integer), and the laws then hold of the canonical ones.
pub trait Numeric: Sized + Copy {
    /// Which values of the carrier type are scalars.
    spec fn valid(self) -> bool;

    /// The additive identity.
    spec fn spec_zero() -> Self;

    /// The multiplicative identity.
    spec fn spec_one() -> Self;

    spec fn spec_add(self, other: Self) -> Self;

    spec fn spec_sub(self, other: Self) -> Self;

    spec fn spec_mul(self, other: Self) -> Self;

    /// Meaningful only when `other` is a non-zero scalar.
    spec fn spec_div(self, other: Self) -> Self;

    spec fn spec_neg(self) -> Self;

    /// The order used to read off a sign; no algebraic law is asked of it.
    spec fn spec_lt(self, other: Self) -> bool;

    proof fn axiom_identities()
        ensures
            Self::spec_zero().valid(),
            Self::spec_one().valid(),
            Self::spec_one() != Self::spec_zero(),
    ;

    proof fn axiom_add(a: Self, b: Self)
        requires
            a.valid(),
            b.valid(),
        ensures
            a.spec_add(b).valid(),
            a.spec_add(b) == b.spec_add(a),
            a.spec_add(Self::spec_zero()) == a,
    ;

    proof fn axiom_add_assoc(a: Self, b: Self, c: Self)
        requires
            a.valid(),
            b.valid(),
            c.valid(),
        ensures
            a.spec_add(b).spec_add(c) == a.spec_add(b.spec_add(c)),
    ;

    proof fn axiom_neg(a: Self)
        requires
            a.valid(),
        ensures
            a.spec_neg().valid(),
            a.spec_add(a.spec_neg()) == Self::spec_zero(),
    ;

    proof fn axiom_sub(a: Self, b: Self)
        requires
            a.valid(),
            b.valid(),
        ensures
            a.spec_sub(b).valid(),
            a.spec_sub(b) == a.spec_add(b.spec_neg()),
    ;

    proof fn axiom_mul(a: Self, b: Self)
        requires
            a.valid(),
            b.valid(),
        ensures
            a.spec_mul(b).valid(),
            a.spec_mul(b) == b.spec_mul(a),
            a.spec_mul(Self::spec_one()) == a,
    ;

    proof fn axiom_mul_assoc(a: Self, b: Self, c: Self)
        requires
            a.valid(),
            b.valid(),
            c.valid(),
        ensures
            a.spec_mul(b).spec_mul(c) == a.spec_mul(b.spec_mul(c)),
    ;

    proof fn axiom_distrib(a: Self, b: Self, c: Self)
        requires
            a.valid(),
            b.valid(),
            c.valid(),
        ensures
            a.spec_mul(b.spec_add(c)) == a.spec_mul(b).spec_add(a.spec_mul(c)),
    ;

    proof fn axiom_div(a: Self, b: Self)
        requires
            a.valid(),
            b.valid(),
            b != Self::spec_zero(),
        ensures
            a.spec_div(b).valid(),
            a.spec_div(b).spec_mul(b) == a,
    ;

    fn zero() -> (r: Self)
        ensures
            r == Self::spec_zero(),
    ;

    fn one() -> (r: Self)
        ensures
            r == Self::spec_one(),
    ;

    fn add(self, other: Self) -> (r: Self)
        requires
            self.valid(),
            other.valid(),
        ensures
            r == self.spec_add(other),
    ;

    fn sub(self, other: Self) -> (r: Self)
        requires
            self.valid(),
            other.valid(),
        ensures
            r == self.spec_sub(other),
    ;

    fn mul(self, other: Self) -> (r: Self)
        requires
            self.valid(),
            other.valid(),
        ensures
            r == self.spec_mul(other),
    ;

    fn div(self, other: Self) -> (r: Self)
        requires
            self.valid(),
            other.valid(),
            other != Self::spec_zero(),
        ensures
            r == self.spec_div(other),
    ;

    fn neg(self) -> (r: Self)
        requires
            self.valid(),
        ensures
            r == self.spec_neg(),
    ;

    /// Exact comparison against the additive identity, as pivot search needs.
    fn is_zero(&self) -> (r: bool)
        requires
            self.valid(),
        ensures
            r == (*self == Self::spec_zero()),
    ;

    fn lt(&self, other: &Self) -> (r: bool)
        requires
            self.valid(),
            other.valid(),
        ensures
            r == self.spec_lt(*other),
    ;

    /// The magnitude read off through the order: negate what lies below zero.
    fn abs(self) -> (r: Self)
        requires
            self.valid(),
        ensures
            r == if self.spec_lt(Self::spec_zero()) {
                self.spec_neg()
            } else {
                self
            },
    ;
}

} // verus!
