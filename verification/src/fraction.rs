//! Fractions of integers: the greatest common divisor and lowest terms.
use vstd::prelude::*;

verus! {

/// Whether an integer is a 64-bit integer.
pub open spec fn fits(v: int) -> bool {
    i64::MIN <= v <= i64::MAX
}

/// The greatest common divisor of two natural numbers; `gcd(0, 0)` is `0`.
pub open spec fn gcd(a: nat, b: nat) -> nat
    decreases b,
{
    if b == 0 {
        a
    } else {
        gcd(b, a % b)
    }
}

/// The absolute value.
pub open spec fn magnitude(v: int) -> nat {
    if v < 0 {
        (-v) as nat
    } else {
        v as nat
    }
}

/// The numerator of `n / d` in lowest terms with a positive denominator.
pub open spec fn reduced_numerator(n: int, d: int) -> int
    recommends
        d != 0,
{
    let g = gcd(magnitude(n), magnitude(d)) as int;
    if d < 0 {
        -n / g
    } else {
        n / g
    }
}

/// The denominator of `n / d` in lowest terms: positive.
pub open spec fn reduced_denominator(n: int, d: int) -> int
    recommends
        d != 0,
{
    let g = gcd(magnitude(n), magnitude(d)) as int;
    magnitude(d) as int / g
}

/// `c` taken `k` times.
pub open spec fn times(c: nat, k: nat) -> nat {
    c * k
}

/// Whether `c` divides `a`.
pub open spec fn divides(c: nat, a: nat) -> bool {
    exists|k: nat| a == #[trigger] times(c, k)
}

/// A multiple of `g` divided by `g`.
pub proof fn lemma_exact_quotient(x: int, g: int, k: int)
    requires
        g > 0,
        x == k * g,
    ensures
        x / g == k,
{
    vstd::arithmetic::div_mod::lemma_div_multiples_vanish(k, g);
    assert(g * k == k * g) by (nonlinear_arith);
}

/// The greatest common divisor divides both numbers.
pub proof fn lemma_gcd_divides(a: nat, b: nat)
    ensures
        divides(gcd(a, b), a),
        divides(gcd(a, b), b),
    decreases b,
{
    let g = gcd(a, b);
    if b == 0 {
        assert(a == times(g, 1));
        assert(b == times(g, 0));
    } else {
        lemma_gcd_divides(b, a % b);
        let k1 = choose|k: nat| b == #[trigger] times(g, k);
        let k2 = choose|k: nat| a % b == #[trigger] times(g, k);
        let q = a / b;
        assert(a == b * q + a % b) by {
            vstd::arithmetic::div_mod::lemma_fundamental_div_mod(a as int, b as int);
        }
        let k = k1 * q + k2;
        assert(a == g * k) by (nonlinear_arith)
            requires
                a == b * q + a % b,
                b == g * k1,
                a % b == g * k2,
                k == k1 * q + k2,
        ;
        assert(a == times(g, k));
    }
}

/// Whatever divides both numbers divides their greatest common divisor.
pub proof fn lemma_gcd_greatest(a: nat, b: nat, c: nat)
    requires
        divides(c, a),
        divides(c, b),
    ensures
        divides(c, gcd(a, b)),
    decreases b,
{
    if b != 0 {
        let ka = choose|k: nat| a == #[trigger] times(c, k);
        let kb = choose|k: nat| b == #[trigger] times(c, k);
        let q = a / b;
        let r = a % b;
        assert(a == b * q + r) by {
            vstd::arithmetic::div_mod::lemma_fundamental_div_mod(a as int, b as int);
        }
        assert(c > 0) by {
            if c == 0 {
                assert(b == c * kb);
                assert(0 * kb == 0) by (nonlinear_arith);
            }
        }
        assert(ka >= kb * q) by (nonlinear_arith)
            requires
                a == c * ka,
                b == c * kb,
                a == b * q + r,
                r >= 0,
                c > 0,
        ;
        let k = (ka - kb * q) as nat;
        assert(r == c * k) by (nonlinear_arith)
            requires
                a == c * ka,
                b == c * kb,
                a == b * q + r,
                k == ka - kb * q,
        ;
        assert(r == times(c, k));
        lemma_gcd_greatest(b, r, c);
    }
}

/// The greatest common divisor of two numbers that are not both zero is positive.
pub proof fn lemma_gcd_positive(a: nat, b: nat)
    requires
        a > 0 || b > 0,
    ensures
        gcd(a, b) > 0,
    decreases b,
{
    if b != 0 {
        lemma_gcd_positive(b, a % b);
    }
}

/// Two numbers divided by their greatest common divisor have no common divisor
/// but one.
pub proof fn lemma_gcd_of_quotients(a: nat, b: nat)
    requires
        a > 0 || b > 0,
    ensures
        gcd(a / gcd(a, b), b / gcd(a, b)) == 1,
        a == gcd(a, b) * (a / gcd(a, b)),
        b == gcd(a, b) * (b / gcd(a, b)),
{
    let g = gcd(a, b);
    lemma_gcd_positive(a, b);
    lemma_gcd_divides(a, b);
    let ka = choose|k: nat| a == #[trigger] times(g, k);
    let kb = choose|k: nat| b == #[trigger] times(g, k);
    assert(a / g == ka) by {
        vstd::arithmetic::div_mod::lemma_div_multiples_vanish(ka as int, g as int);
        assert(g * ka == ka * g) by (nonlinear_arith);
    }
    assert(b / g == kb) by {
        vstd::arithmetic::div_mod::lemma_div_multiples_vanish(kb as int, g as int);
        assert(g * kb == kb * g) by (nonlinear_arith);
    }
    assert(ka > 0 || kb > 0) by (nonlinear_arith)
        requires
            a == g * ka,
            b == g * kb,
            a > 0 || b > 0,
    ;
    let h = gcd(ka, kb);
    lemma_gcd_positive(ka, kb);
    lemma_gcd_divides(ka, kb);
    let ja = choose|k: nat| ka == #[trigger] times(h, k);
    let jb = choose|k: nat| kb == #[trigger] times(h, k);
    let hg = h * g;
    assert(a == hg * ja) by (nonlinear_arith)
        requires
            a == g * ka,
            ka == h * ja,
            hg == h * g,
    ;
    assert(b == hg * jb) by (nonlinear_arith)
        requires
            b == g * kb,
            kb == h * jb,
            hg == h * g,
    ;
    assert(a == times(hg, ja));
    assert(b == times(hg, jb));
    lemma_gcd_greatest(a, b, hg);
    let m = choose|k: nat| g == #[trigger] times(hg, k);
    assert(h == 1) by (nonlinear_arith)
        requires
            g == hg * m,
            hg == h * g,
            g > 0,
            h > 0,
    ;
}

/// A fraction in lowest terms with a positive denominator is its own reduction,
/// and the reduction of any fraction is in lowest terms with a positive
/// denominator.
pub proof fn lemma_reduced_is_lowest(n: int, d: int)
    requires
        d != 0,
    ensures
        reduced_denominator(n, d) > 0,
        reduced_numerator(reduced_numerator(n, d), reduced_denominator(n, d)) == reduced_numerator(
            n,
            d,
        ),
        reduced_denominator(reduced_numerator(n, d), reduced_denominator(n, d))
            == reduced_denominator(n, d),
        gcd(magnitude(reduced_numerator(n, d)), magnitude(reduced_denominator(n, d))) == 1,
        n * reduced_denominator(n, d) == reduced_numerator(n, d) * d,
{
    let a = magnitude(n);
    let b = magnitude(d);
    let g = gcd(a, b);
    lemma_gcd_of_quotients(a, b);
    lemma_gcd_positive(a, b);
    let ka = a / g;
    let kb = b / g;
    let n1 = reduced_numerator(n, d);
    let d1 = reduced_denominator(n, d);
    assert(d1 == kb);
    assert(kb > 0) by (nonlinear_arith)
        requires
            b == g * kb,
            b > 0,
            g > 0,
    ;
    // the numerator divides exactly
    let sn: int = if n < 0 {
        -(ka as int)
    } else {
        ka as int
    };
    assert(n == sn * g) by (nonlinear_arith)
        requires
            a == g * ka,
            a == magnitude(n),
            sn == if n < 0 {
                -(ka as int)
            } else {
                ka as int
            },
    ;
    lemma_exact_quotient(n, g as int, sn);
    assert(-n == (-sn) * g) by (nonlinear_arith)
        requires
            n == sn * g,
    ;
    lemma_exact_quotient(-n, g as int, -sn);
    assert(magnitude(n1) == ka);
    assert(magnitude(d1) == kb);
    assert(n1 / 1 == n1);
    assert(d1 / 1 == d1);
    assert(n * d1 == n1 * d) by (nonlinear_arith)
        requires
            n == sn * g,
            b == g * kb,
            d1 == kb,
            b == magnitude(d),
            n1 == if d < 0 {
                -sn
            } else {
                sn
            },
    ;
}

/// The lowest terms by magnitudes: the numerator takes the sign of the fraction.
pub proof fn lemma_reduced_by_magnitude(n: int, d: int)
    requires
        d != 0,
    ensures
        gcd(magnitude(n), magnitude(d)) > 0,
        reduced_denominator(n, d) == magnitude(d) / gcd(magnitude(n), magnitude(d)),
        reduced_numerator(n, d) == if (n < 0) != (d < 0) {
            -((magnitude(n) / gcd(magnitude(n), magnitude(d))) as int)
        } else {
            (magnitude(n) / gcd(magnitude(n), magnitude(d))) as int
        },
{
    let a = magnitude(n);
    let b = magnitude(d);
    let g = gcd(a, b);
    lemma_gcd_of_quotients(a, b);
    lemma_gcd_positive(a, b);
    let ka = a / g;
    let sn: int = if n < 0 {
        -(ka as int)
    } else {
        ka as int
    };
    assert(n == sn * g) by (nonlinear_arith)
        requires
            a == g * ka,
            a == magnitude(n),
            sn == if n < 0 {
                -(ka as int)
            } else {
                ka as int
            },
    ;
    lemma_exact_quotient(n, g as int, sn);
    assert(-n == (-sn) * g) by (nonlinear_arith)
        requires
            n == sn * g,
    ;
    lemma_exact_quotient(-n, g as int, -sn);
}

/// The absolute value of a 64-bit integer.
pub fn magnitude_of(v: i64) -> (m: u64)
    ensures
        m == magnitude(v as int),
{
    if v == i64::MIN {
        9223372036854775808u64
    } else if v < 0 {
        (-v) as u64
    } else {
        v as u64
    }
}

/// The greatest common divisor, by Euclid's algorithm.
pub fn gcd_of(a: u64, b: u64) -> (g: u64)
    ensures
        g == gcd(a as nat, b as nat),
{
    let mut x = a;
    let mut y = b;
    while y != 0
        invariant
            gcd(x as nat, y as nat) == gcd(a as nat, b as nat),
        decreases y,
    {
        let r = x % y;
        x = y;
        y = r;
    }
    x
}

/// The fraction `n / d` in lowest terms with a positive denominator, when both
/// are 64-bit integers.
pub fn reduce(n: i64, d: i64) -> (r: Option<(i64, i64)>)
    requires
        d != 0,
    ensures
        match r {
            Some((p, q)) => p == reduced_numerator(n as int, d as int) && q
                == reduced_denominator(n as int, d as int),
            None => !(fits(reduced_numerator(n as int, d as int)) && fits(
                reduced_denominator(n as int, d as int),
            )),
        },
{
    let a = magnitude_of(n);
    let b = magnitude_of(d);
    let g = gcd_of(a, b);
    proof {
        lemma_reduced_by_magnitude(n as int, d as int);
    }
    let ka = a / g;
    let kb = b / g;
    let negative = (n < 0) != (d < 0);
    if kb > 9223372036854775807u64 {
        return None;
    }
    if negative {
        if ka > 9223372036854775808u64 {
            None
        } else if ka == 9223372036854775808u64 {
            Some((i64::MIN, kb as i64))
        } else {
            Some((-(ka as i64), kb as i64))
        }
    } else {
        if ka > 9223372036854775807u64 {
            None
        } else {
            Some((ka as i64, kb as i64))
        }
    }
}

} // verus!
