use vstd::prelude::*;
use vstd::arithmetic::div_mod::*;

verus! {

// Enough elementary number theory to know that every non-zero residue is
// invertible modulo the prime the concrete scalar type is built on.

/// `d` divides `n`.
pub open spec fn divides(d: int, n: int) -> bool {
    exists|k: int| n == #[trigger] (k * d)
}

/// The greatest common divisor, by Euclid's recursion.
pub open spec fn gcd(a: nat, b: nat) -> nat
    decreases b,
{
    if b == 0 {
        a
    } else {
        gcd(b, a % b)
    }
}

/// A common divisor also divides any integer combination.
proof fn lemma_divides_combination(d: int, x: int, y: int, q: int)
    requires
        divides(d, x),
        divides(d, y),
    ensures
        divides(d, q * x + y),
{
    let k1 = choose|k: int| x == #[trigger] (k * d);
    let k2 = choose|k: int| y == #[trigger] (k * d);
    assert(q * (k1 * d) + k2 * d == (q * k1 + k2) * d) by (nonlinear_arith);
    assert(q * x + y == (q * k1 + k2) * d);
}

/// Euclid's recursion returns a common divisor.
proof fn lemma_gcd_divides(a: nat, b: nat)
    ensures
        divides(gcd(a, b) as int, a as int),
        divides(gcd(a, b) as int, b as int),
    decreases b,
{
    if b == 0 {
        assert(a as int == 1 * (a as int));
        assert(0int == 0 * (a as int));
    } else {
        lemma_gcd_divides(b, a % b);
        let g = gcd(b, a % b) as int;
        lemma_fundamental_div_mod(a as int, b as int);
        assert(a as int == (a as int / b as int) * (b as int) + (a % b) as int) by {
            assert(a as int == b as int * (a as int / b as int) + (a % b) as int);
            assert(b as int * (a as int / b as int) == (a as int / b as int) * (b as int))
                by (nonlinear_arith);
        }
        lemma_divides_combination(g, b as int, (a % b) as int, a as int / b as int);
    }
}

/// The greatest common divisor of a positive number is positive.
proof fn lemma_gcd_pos(a: nat, b: nat)
    requires
        a > 0,
    ensures
        gcd(a, b) > 0,
    decreases b,
{
    if b != 0 {
        lemma_gcd_pos(b, a % b);
    }
}

/// A positive divisor of a positive number is no larger than it.
proof fn lemma_divides_le(d: int, n: int)
    requires
        divides(d, n),
        d > 0,
        n > 0,
    ensures
        d <= n,
{
    let k = choose|k: int| n == #[trigger] (k * d);
    assert(d > 0 && k >= 1 ==> k * d >= d) by (nonlinear_arith);
    assert(d > 0 && k <= 0 ==> k * d <= 0) by (nonlinear_arith);
}

/// Bezout coefficients: the greatest common divisor is an integer
/// combination of its arguments.
proof fn lemma_bezout(a: nat, b: nat) -> (r: (int, int))
    ensures
        r.0 * a + r.1 * b == gcd(a, b),
    decreases b,
{
    if b == 0 {
        assert(1 * a + 0 * b == a as int);
        (1, 0)
    } else {
        let (x, y) = lemma_bezout(b, a % b);
        let q = a as int / b as int;
        lemma_fundamental_div_mod(a as int, b as int);
        let rx = y;
        let ry = x - y * q;
        assert(y * a + (x - y * q) * b == x * b + y * (a - b * q)) by (nonlinear_arith);
        assert(rx * a + ry * b == x * b + y * (a - b * q));
        assert(a as int - b as int * q == (a % b) as int);
        assert(x * b + y * ((a % b) as int) == gcd(b, a % b));
        assert(rx * a + ry * b == gcd(a, b));
        (rx, ry)
    }
}

/// No number in `2 ..= d` divides `n`.
pub open spec fn no_divisor_upto(n: nat, d: nat) -> bool
    decreases d,
{
    if d < 2 {
        true
    } else {
        n % d != 0 && no_divisor_upto(n, (d - 1) as nat)
    }
}

proof fn lemma_no_divisor_unpack(n: nat, d: nat, k: nat)
    requires
        no_divisor_upto(n, d),
        2 <= k <= d,
    ensures
        n % k != 0,
    decreases d,
{
    if k < d {
        lemma_no_divisor_unpack(n, (d - 1) as nat, k);
    }
}

/// The modulus of the concrete scalar type is prime.
proof fn lemma_modulus_prime()
    ensures
        forall|d: nat| 2 <= d < 101 ==> #[trigger] (101nat % d) != 0,
{
    assert(no_divisor_upto(101, 10)) by {
        reveal_with_fuel(no_divisor_upto, 11);
    }
    assert forall|d: nat| 2 <= d < 101 implies #[trigger] (101nat % d) != 0 by {
        if d <= 10 {
            lemma_no_divisor_unpack(101, 10, d);
        } else {
            if 101nat % d == 0 {
                lemma_fundamental_div_mod(101, d as int);
                let q = 101int / d as int;
                assert(101 == d * q);
                assert(d >= 11 && q >= 10 ==> d * q >= 110) by (nonlinear_arith);
                assert(q >= 1) by {
                    assert(q <= 0 ==> d * q <= 0) by (nonlinear_arith);
                }
                assert(q == 1 ==> d * q == d) by (nonlinear_arith);
                assert(2 <= q <= 10);
                lemma_mod_multiples_basic(d as int, q);
                assert((d as int * q) % q == 0);
                assert(101int % q == 0);
                assert(101nat % (q as nat) == 0);
                lemma_no_divisor_unpack(101, 10, q as nat);
                assert(false);
            }
        }
    }
}

/// Every non-zero residue has a multiplicative inverse modulo the prime.
pub proof fn lemma_inverse_exists(b: nat)
    requires
        0 < b < 101,
    ensures
        exists|c: nat| c < 101 && #[trigger] ((c * b) % 101) == 1,
{
    let g = gcd(b, 101);
    lemma_gcd_divides(b, 101);
    lemma_gcd_pos(b, 101);
    lemma_divides_le(g as int, b as int);
    if g >= 2 {
        // g divides the prime, so it would be a small divisor of it.
        let k = choose|k: int| 101int == #[trigger] (k * (g as int));
        lemma_mod_multiples_basic(k, g as int);
        assert((k * g) % (g as int) == 0);
        lemma_modulus_prime();
        assert(101nat % g == 0);
        assert(false);
    }
    let (x, y) = lemma_bezout(b, 101);
    assert(x * b + y * 101 == 1);
    let c0 = x % 101;
    lemma_mod_bound(x, 101);
    lemma_mul_mod_noop_left(x, b as int, 101);
    assert((c0 * b) % 101 == (x * b) % 101);
    assert(x * b == (-y) * 101 + 1);
    lemma_mod_multiples_vanish(-y, 1, 101);
    lemma_small_mod(1, 101);
    assert((x * b) % 101 == 1);
    let c = c0 as nat;
    assert(c < 101 && (c * b) % 101 == 1);
}

} // verus!
