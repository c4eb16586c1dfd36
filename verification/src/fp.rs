use vstd::prelude::*;
use vstd::arithmetic::div_mod::*;
use crate::numeric::Numeric;
use crate::nt::lemma_inverse_exists;

verus! {

/// A scalar of the prime field with 101 elements, held as its canonical
/// residue. Arithmetic is exact, every non-zero value divides, and equality
/// to zero is an honest comparison, which is what pivot detection needs.
#[derive(Clone, Copy, Debug, PartialEq, Eq, Structural)]
pub struct Fp {
    pub v: u64,
}

impl Fp {
    /// The canonical residue of `x`.
    pub open spec fn from_int_spec(x: int) -> Fp {
        Fp { v: (x % 101) as u64 }
    }

    /// The residue class of an integer, reduced into the field.
    pub fn from_int(x: i64) -> (r: Fp)
        ensures
            r == Fp::from_int_spec(x as int),
            r.valid(),
    {
        if x >= 0 {
            let m = (x as u64) % 101;
            Fp { v: m }
        } else {
            // Avoid the one overflowing negation by stepping through x + 1.
            let mag: u64 = ((-(x + 1)) as u64) + 1;
            let mm = mag % 101;
            let r = if mm == 0 {
                Fp { v: 0 }
            } else {
                Fp { v: 101 - mm }
            };
            proof {
                let xi = x as int;
                let n = -xi;
                assert(mag == n);
                lemma_fundamental_div_mod(n, 101);
                let q = n / 101;
                let rr = n % 101;
                if rr == 0 {
                    assert(xi == 101 * (-q) + 0);
                    lemma_fundamental_div_mod_converse(xi, 101, -q, 0);
                } else {
                    assert(xi == 101 * (-q - 1) + (101 - rr));
                    lemma_fundamental_div_mod_converse(xi, 101, -q - 1, 101 - rr);
                }
            }
            r
        }
    }

    /// The residue class of the fraction `num / den`, reduced into the field.
    /// The denominator must not lie in the residue class of zero.
    pub fn from_ratio(num: i64, den: i64) -> (r: Fp)
        requires
            Fp::from_int_spec(den as int) != Fp::spec_zero(),
        ensures
            r == Fp::from_int_spec(num as int).spec_div(Fp::from_int_spec(den as int)),
    {
        let n = Fp::from_int(num);
        let d = Fp::from_int(den);
        n.div(d)
    }
}

/// Division by a non-zero residue has a solution: the residue of the
/// quotient times the divisor gives back the dividend.
proof fn lemma_fp_solution(a: Fp, b: Fp)
    requires
        a.valid(),
        b.valid(),
        b.v != 0,
    ensures
        exists|c: u64| c < 101 && #[trigger] ((c * b.v) % 101) == a.v,
{
    lemma_inverse_exists(b.v as nat);
    let ci = choose|c: nat| c < 101 && #[trigger] ((c * (b.v as nat)) % 101) == 1;
    let cv = (ci * a.v) % 101;
    let x = ci as int;
    let av = a.v as int;
    let bv = b.v as int;
    lemma_mul_mod_noop_left(x * av, bv, 101);
    assert((((x * av) % 101) * bv) % 101 == ((x * av) * bv) % 101);
    assert((x * av) * bv == av * (x * bv)) by (nonlinear_arith);
    lemma_mul_mod_noop_right(av, x * bv, 101);
    assert((av * ((x * bv) % 101)) % 101 == (av * (x * bv)) % 101);
    assert((x * bv) % 101 == 1);
    assert(av * 1 == av) by (nonlinear_arith);
    lemma_small_mod(a.v as nat, 101);
    let cw = cv as u64;
    assert(cw < 101 && ((cw * b.v) % 101) == a.v);
}

/// Multiplying by a non-zero residue is injective.
proof fn lemma_fp_cancel(x: Fp, y: Fp, b: Fp)
    requires
        x.valid(),
        y.valid(),
        b.valid(),
        b.v != 0,
        x.spec_mul(b) == y.spec_mul(b),
    ensures
        x == y,
{
    lemma_inverse_exists(b.v as nat);
    let ci = choose|c: nat| c < 101 && #[trigger] ((c * (b.v as nat)) % 101) == 1;
    let w = ci as int;
    let xv = x.v as int;
    let yv = y.v as int;
    let bv = b.v as int;
    assert((xv * bv) % 101 == (yv * bv) % 101);
    // xv == (xv * (bv * w)) % 101 == (((xv * bv) % 101) * w) % 101, same for yv.
    assert(xv == ((xv * bv) % 101 * w) % 101) by {
        lemma_mul_mod_noop_left(xv * bv, w, 101);
        assert(((xv * bv) % 101 * w) % 101 == ((xv * bv) * w) % 101);
        assert((xv * bv) * w == xv * (w * bv)) by (nonlinear_arith);
        lemma_mul_mod_noop_right(xv, w * bv, 101);
        assert((xv * ((w * bv) % 101)) % 101 == (xv * (w * bv)) % 101);
        assert((w * bv) % 101 == 1);
        assert(xv * 1 == xv) by (nonlinear_arith);
        lemma_small_mod(x.v as nat, 101);
    }
    assert(yv == ((yv * bv) % 101 * w) % 101) by {
        lemma_mul_mod_noop_left(yv * bv, w, 101);
        assert(((yv * bv) % 101 * w) % 101 == ((yv * bv) * w) % 101);
        assert((yv * bv) * w == yv * (w * bv)) by (nonlinear_arith);
        lemma_mul_mod_noop_right(yv, w * bv, 101);
        assert((yv * ((w * bv) % 101)) % 101 == (yv * (w * bv)) % 101);
        assert((w * bv) % 101 == 1);
        assert(yv * 1 == yv) by (nonlinear_arith);
        lemma_small_mod(y.v as nat, 101);
    }
}

impl Numeric for Fp {
    open spec fn valid(self) -> bool {
        self.v < 101
    }

    open spec fn spec_zero() -> Fp {
        Fp { v: 0 }
    }

    open spec fn spec_one() -> Fp {
        Fp { v: 1 }
    }

    open spec fn spec_add(self, other: Fp) -> Fp {
        Fp { v: ((self.v + other.v) % 101) as u64 }
    }

    open spec fn spec_sub(self, other: Fp) -> Fp {
        Fp { v: ((self.v + 101 - other.v) % 101) as u64 }
    }

    open spec fn spec_mul(self, other: Fp) -> Fp {
        Fp { v: ((self.v * other.v) % 101) as u64 }
    }

    open spec fn spec_div(self, other: Fp) -> Fp {
        choose|c: Fp| c.valid() && #[trigger] c.spec_mul(other) == self
    }

    open spec fn spec_neg(self) -> Fp {
        Fp { v: ((101 - self.v) % 101) as u64 }
    }

    open spec fn spec_lt(self, other: Fp) -> bool {
        self.v < other.v
    }

    proof fn axiom_identities() {
    }

    proof fn axiom_add(a: Fp, b: Fp) {
        lemma_small_mod(a.v as nat, 101);
    }

    proof fn axiom_add_assoc(a: Fp, b: Fp, c: Fp) {
        let x = a.v as int;
        let y = b.v as int;
        let z = c.v as int;
        lemma_add_mod_noop_right(z, x + y, 101);
        assert((z + (x + y) % 101) % 101 == (z + (x + y)) % 101);
        lemma_add_mod_noop_right(x, y + z, 101);
        assert((x + (y + z) % 101) % 101 == (x + (y + z)) % 101);
    }

    proof fn axiom_neg(a: Fp) {
        if a.v == 0 {
            lemma_small_mod(0, 101);
        } else {
            lemma_small_mod((101 - a.v) as nat, 101);
            assert((a.v + (101 - a.v)) % 101 == 0) by {
                lemma_mod_self_0(101);
            }
        }
    }

    proof fn axiom_sub(a: Fp, b: Fp) {
        if b.v == 0 {
            lemma_small_mod(0, 101);
        } else {
            lemma_small_mod((101 - b.v) as nat, 101);
        }
    }

    proof fn axiom_mul(a: Fp, b: Fp) {
        lemma_small_mod(a.v as nat, 101);
        assert(a.v * 1 == a.v) by (nonlinear_arith);
        assert(a.v * b.v == b.v * a.v) by (nonlinear_arith);
    }

    proof fn axiom_mul_assoc(a: Fp, b: Fp, c: Fp) {
        let x = a.v as int;
        let y = b.v as int;
        let z = c.v as int;
        lemma_mul_mod_noop_left(x * y, z, 101);
        assert(((x * y) % 101 * z) % 101 == ((x * y) * z) % 101);
        lemma_mul_mod_noop_right(x, y * z, 101);
        assert((x * ((y * z) % 101)) % 101 == (x * (y * z)) % 101);
        assert((x * y) * z == x * (y * z)) by (nonlinear_arith);
    }

    proof fn axiom_distrib(a: Fp, b: Fp, c: Fp) {
        let x = a.v as int;
        let y = b.v as int;
        let z = c.v as int;
        lemma_mul_mod_noop_right(x, y + z, 101);
        assert((x * ((y + z) % 101)) % 101 == (x * (y + z)) % 101);
        assert(x * (y + z) == x * y + x * z) by (nonlinear_arith);
        lemma_add_mod_noop(x * y, x * z, 101);
        assert(((x * y) % 101 + (x * z) % 101) % 101 == (x * y + x * z) % 101);
    }

    proof fn axiom_div(a: Fp, b: Fp) {
        lemma_fp_solution(a, b);
        let cv = choose|c: u64| c < 101 && #[trigger] ((c * b.v) % 101) == a.v;
        let c = Fp { v: cv };
        assert(c.valid() && c.spec_mul(b) == a);
        let w = a.spec_div(b);
        assert(w.valid() && w.spec_mul(b) == a);
    }

    fn zero() -> (r: Fp) {
        Fp { v: 0 }
    }

    fn one() -> (r: Fp) {
        Fp { v: 1 }
    }

    fn add(self, other: Fp) -> (r: Fp) {
        Fp { v: (self.v + other.v) % 101 }
    }

    fn sub(self, other: Fp) -> (r: Fp) {
        Fp { v: (self.v + 101 - other.v) % 101 }
    }

    fn mul(self, other: Fp) -> (r: Fp) {
        proof {
            assert(self.v < 101 && other.v < 101 ==> self.v * other.v < 101 * 101)
                by (nonlinear_arith);
        }
        Fp { v: (self.v * other.v) % 101 }
    }

    fn div(self, other: Fp) -> (r: Fp) {
        proof {
            lemma_fp_solution(self, other);
        }
        let mut c: u64 = 0;
        while c < 101
            invariant
                c <= 101,
                self.valid(),
                other.valid(),
                other.v != 0,
                forall|d: u64| d < c ==> #[trigger] ((d * other.v) % 101) != self.v,
            decreases 101 - c,
        {
            proof {
                assert(c < 101 && other.v < 101 ==> c * other.v < 101 * 101)
                    by (nonlinear_arith);
            }
            if (c * other.v) % 101 == self.v {
                let r = Fp { v: c };
                proof {
                    assert(r.spec_mul(other) == self);
                    let w = self.spec_div(other);
                    assert(w.valid() && w.spec_mul(other) == self);
                    lemma_fp_cancel(r, w, other);
                }
                return r;
            }
            c += 1;
        }
        proof {
            let cv = choose|d: u64| d < 101 && #[trigger] ((d * other.v) % 101) == self.v;
            assert(false);
        }
        Fp { v: 0 }
    }

    fn neg(self) -> (r: Fp) {
        Fp { v: (101 - self.v) % 101 }
    }

    fn is_zero(&self) -> (r: bool) {
        self.v == 0
    }

    fn lt(&self, other: &Fp) -> (r: bool) {
        self.v < other.v
    }

    fn abs(self) -> (r: Fp) {
        self
    }
}

} // verus!
