//! Integer facts shared by the sieve and the factorization code.
use vstd::arithmetic::power2::{lemma2_to64, lemma2_to64_rest, lemma_pow2_strictly_increases, lemma_pow2_unfold, pow2};
use vstd::arithmetic::div_mod::{lemma_fundamental_div_mod, lemma_mod_multiples_basic};
use vstd::prelude::*;

verus! {

/// `b` raised to the power `e`.
pub open spec fn power(b: int, e: nat) -> int
    decreases e,
{
    if e == 0 {
        1
    } else {
        b * power(b, (e - 1) as nat)
    }
}

/// `x` is a prime number.
pub open spec fn is_prime(x: int) -> bool {
    x >= 2 && forall|d: int| 2 <= d < x ==> #[trigger] (x % d) != 0
}

/// How many times `p` divides `n` (zero when `p < 2` or `n == 0`).
pub open spec fn multiplicity(n: int, p: int) -> nat
    decreases n,
{
    if p >= 2 && n > 0 && n % p == 0 {
        if n / p < n {
            1 + multiplicity(n / p, p)
        } else {
            0
        }
    } else {
        0
    }
}

/// Dividing a positive number by at least 2 makes it smaller.
pub proof fn lemma_div_smaller(n: int, p: int)
    requires
        p >= 2,
        n > 0,
    ensures
        n / p < n,
        n / p >= 0,
{
    assert(n / p < n) by (nonlinear_arith)
        requires
            p >= 2,
            n > 0,
    ;
    assert(n / p >= 0) by (nonlinear_arith)
        requires
            p >= 2,
            n > 0,
    ;
}

/// Unfolds `multiplicity` once for a number that `p` divides.
pub proof fn lemma_multiplicity_step(n: int, p: int)
    requires
        p >= 2,
        n > 0,
        n % p == 0,
    ensures
        multiplicity(n, p) == 1 + multiplicity(n / p, p),
{
    lemma_div_smaller(n, p);
}

/// A power of a positive base is positive.
pub proof fn lemma_power_positive(b: int, e: nat)
    requires
        b >= 1,
    ensures
        power(b, e) >= 1,
    decreases e,
{
    if e > 0 {
        lemma_power_positive(b, (e - 1) as nat);
        assert(b * power(b, (e - 1) as nat) >= 1) by (nonlinear_arith)
            requires
                b >= 1,
                power(b, (e - 1) as nat) >= 1,
        ;
    }
}

/// `b^(x + y) == b^x * b^y`.
pub proof fn lemma_power_adds(b: int, x: nat, y: nat)
    ensures
        power(b, x + y) == power(b, x) * power(b, y),
    decreases x,
{
    if x > 0 {
        lemma_power_adds(b, (x - 1) as nat, y);
        assert(power(b, x + y) == b * power(b, (x - 1 + y) as nat));
        assert(b * (power(b, (x - 1) as nat) * power(b, y)) == (b * power(b, (x - 1) as nat))
            * power(b, y)) by (nonlinear_arith);
    }
}

/// A power of `b >= 1` does not shrink when the exponent grows.
pub proof fn lemma_power_monotone(b: int, x: nat, y: nat)
    requires
        b >= 1,
        x <= y,
    ensures
        power(b, x) <= power(b, y),
{
    lemma_power_adds(b, x, (y - x) as nat);
    lemma_power_positive(b, x);
    lemma_power_positive(b, (y - x) as nat);
    assert(power(b, x) <= power(b, x) * power(b, (y - x) as nat)) by (nonlinear_arith)
        requires
            power(b, x) >= 1,
            power(b, (y - x) as nat) >= 1,
    ;
}

/// A power of a base of at least 2 is at least the same power of 2.
proof fn lemma_power_at_least_pow2(b: int, e: nat)
    requires
        b >= 2,
    ensures
        power(b, e) >= pow2(e),
    decreases e,
{
    if e > 0 {
        lemma_power_at_least_pow2(b, (e - 1) as nat);
        lemma_pow2_unfold(e);
        assert(b * power(b, (e - 1) as nat) >= 2 * pow2((e - 1) as nat)) by (nonlinear_arith)
            requires
                b >= 2,
                power(b, (e - 1) as nat) >= pow2((e - 1) as nat),
                pow2((e - 1) as nat) >= 0,
        ;
    } else {
        lemma2_to64();
    }
}

/// A power of `b >= 2` that fits in 64 bits has an exponent below 64.
pub proof fn lemma_small_exponent(b: int, e: nat)
    requires
        b >= 2,
        power(b, e) <= u64::MAX,
    ensures
        e < 64,
{
    lemma_power_at_least_pow2(b, e);
    if e >= 64 {
        lemma2_to64_rest();
        if e > 64 {
            lemma_pow2_strictly_increases(64, e);
        }
    }
}

/// If `d` divides `n` then so does every divisor of `d`.
pub proof fn lemma_divides_trans(q: int, d: int, n: int)
    requires
        q >= 1,
        d >= 1,
        d % q == 0,
        n % d == 0,
    ensures
        n % q == 0,
{
    let a = n / d;
    let c = d / q;
    assert(n == d * a) by (nonlinear_arith)
        requires
            d >= 1,
            n % d == 0,
            a == n / d,
    ;
    assert(d == q * c) by (nonlinear_arith)
        requires
            q >= 1,
            d % q == 0,
            c == d / q,
    ;
    assert(n == q * (c * a)) by (nonlinear_arith)
        requires
            n == d * a,
            d == q * c,
    ;
    assert((q * (c * a)) % q == 0) by (nonlinear_arith)
        requires
            q >= 1,
    ;
}

/// Every integer of at least 2 has a prime factor no larger than itself.
pub proof fn lemma_prime_factor(n: int) -> (q: int)
    requires
        n >= 2,
    ensures
        is_prime(q),
        q <= n,
        n % q == 0,
    decreases n,
{
    if is_prime(n) {
        assert(n % n == 0) by (nonlinear_arith)
            requires
                n >= 2,
        ;
        n
    } else {
        let d = choose|d: int| 2 <= d < n && #[trigger] (n % d) == 0;
        let q = lemma_prime_factor(d);
        lemma_divides_trans(q, d, n);
        q
    }
}

/// If a prime divides `r * b` with `0 < r < p`, it divides `b`.
proof fn lemma_euclid_small(p: int, r: int, b: int)
    requires
        is_prime(p),
        0 < r < p,
        (r * b) % p == 0,
    ensures
        b % p == 0,
    decreases r,
{
    if r == 1 {
        assert(r * b == b) by (nonlinear_arith)
            requires
                r == 1,
        ;
    } else {
        let t = p / r;
        let s = p % r;
        lemma_fundamental_div_mod(p, r);
        assert(p % r != 0);
        lemma_fundamental_div_mod(r * b, p);
        let u = (r * b) / p;
        assert(r * b == p * u);
        assert(s * b == p * (b - t * u)) by (nonlinear_arith)
            requires
                p == r * t + s,
                r * b == p * u,
        ;
        lemma_mod_multiples_basic(b - t * u, p);
        assert((b - t * u) * p == p * (b - t * u)) by (nonlinear_arith);
        lemma_euclid_small(p, s, b);
    }
}

/// Euclid's lemma: a prime that divides a product and not its first factor divides the
/// second.
pub proof fn lemma_euclid(p: int, a: int, b: int)
    requires
        is_prime(p),
        a % p != 0,
        (a * b) % p == 0,
    ensures
        b % p == 0,
{
    let k = a / p;
    let r = a % p;
    lemma_fundamental_div_mod(a, p);
    lemma_fundamental_div_mod(a * b, p);
    let u = (a * b) / p;
    assert(r * b == p * (u - k * b)) by (nonlinear_arith)
        requires
            a == p * k + r,
            a * b == p * u + 0,
    ;
    lemma_mod_multiples_basic(u - k * b, p);
    assert((u - k * b) * p == p * (u - k * b)) by (nonlinear_arith);
    lemma_euclid_small(p, r, b);
}

/// Multiplying by `p^e` adds `e` to the multiplicity of `p`.
pub proof fn lemma_multiplicity_power_times(p: int, e: nat, c: int)
    requires
        p >= 2,
        c >= 1,
    ensures
        multiplicity(power(p, e) * c, p) == e + multiplicity(c, p),
    decreases e,
{
    if e > 0 {
        lemma_multiplicity_power_times(p, (e - 1) as nat, c);
        let y = power(p, (e - 1) as nat) * c;
        lemma_power_positive(p, (e - 1) as nat);
        assert(y >= 1) by (nonlinear_arith)
            requires
                power(p, (e - 1) as nat) >= 1,
                c >= 1,
                y == power(p, (e - 1) as nat) * c,
        ;
        assert(power(p, e) * c == p * y) by (nonlinear_arith)
            requires
                power(p, e) == p * power(p, (e - 1) as nat),
                y == power(p, (e - 1) as nat) * c,
        ;
        lemma_mod_multiples_basic(y, p);
        assert(y * p == p * y) by (nonlinear_arith);
        assert((p * y) / p == y) by (nonlinear_arith)
            requires
                p >= 2,
        ;
        assert(p * y > 0) by (nonlinear_arith)
            requires
                p >= 2,
                y >= 1,
        ;
        lemma_multiplicity_step(p * y, p);
    }
}

/// A prime `p` does not divide a power of another prime `q`.
proof fn lemma_prime_not_dividing_power(p: int, q: int, e: nat)
    requires
        is_prime(p),
        is_prime(q),
        p != q,
    ensures
        power(q, e) % p != 0,
    decreases e,
{
    if e == 0 {
        assert(1int % p == 1) by (nonlinear_arith)
            requires
                p >= 2,
        ;
    } else {
        lemma_prime_not_dividing_power(p, q, (e - 1) as nat);
        if q % p == 0 {
            if p < q {
                assert(q % p != 0);
            } else {
                assert(q % p == q) by (nonlinear_arith)
                    requires
                        0 < q < p,
                ;
            }
        }
        if power(q, e) % p == 0 {
            lemma_euclid(p, q, power(q, (e - 1) as nat));
        }
    }
}

/// Multiplying by a power of another prime leaves the multiplicity of `p` unchanged.
pub proof fn lemma_multiplicity_other_prime(p: int, q: int, e: nat, c: int)
    requires
        is_prime(p),
        is_prime(q),
        p != q,
        c >= 1,
    ensures
        multiplicity(power(q, e) * c, p) == multiplicity(c, p),
    decreases c,
{
    let x = power(q, e) * c;
    lemma_power_positive(q, e);
    lemma_prime_not_dividing_power(p, q, e);
    assert(x >= 1) by (nonlinear_arith)
        requires
            power(q, e) >= 1,
            c >= 1,
            x == power(q, e) * c,
    ;
    if c % p == 0 {
        lemma_fundamental_div_mod(c, p);
        let c2 = c / p;
        assert(c == p * c2);
        assert(c2 >= 1 && c2 < c) by (nonlinear_arith)
            requires
                c == p * c2,
                c >= 1,
                p >= 2,
        ;
        lemma_multiplicity_other_prime(p, q, e, c2);
        let y = power(q, e) * c2;
        assert(x == p * y) by (nonlinear_arith)
            requires
                x == power(q, e) * c,
                c == p * c2,
                y == power(q, e) * c2,
        ;
        lemma_mod_multiples_basic(y, p);
        assert(y * p == p * y) by (nonlinear_arith);
        assert((p * y) / p == y) by (nonlinear_arith)
            requires
                p >= 2,
        ;
        lemma_multiplicity_step(x, p);
        lemma_multiplicity_step(c, p);
    } else {
        if x % p == 0 {
            lemma_euclid(p, power(q, e), c);
        }
    }
}

/// The multiplicity of `p` does not drop from a number to a multiple of it.
pub proof fn lemma_multiplicity_of_multiple(x: int, y: int, p: int)
    requires
        p >= 2,
        x >= 1,
        y >= 1,
        y % x == 0,
    ensures
        multiplicity(x, p) <= multiplicity(y, p),
{
    lemma_fundamental_div_mod(y, x);
    let t = y / x;
    assert(y == x * t);
    assert(t >= 1) by (nonlinear_arith)
        requires
            y == x * t,
            x >= 1,
            y >= 1,
    ;
    lemma_multiplicity_split(x, p);
    let k = multiplicity(x, p);
    let c = x / power(p, k);
    assert(y == power(p, k) * (c * t)) by (nonlinear_arith)
        requires
            y == x * t,
            x == power(p, k) * c,
    ;
    assert(c * t >= 1) by (nonlinear_arith)
        requires
            c >= 1,
            t >= 1,
    ;
    lemma_multiplicity_power_times(p, k, c * t);
}

/// `n` is the product of a power of `p` and a part that `p` does not divide.
pub proof fn lemma_multiplicity_split(n: int, p: int)
    requires
        p >= 2,
        n >= 1,
    ensures
        power(p, multiplicity(n, p)) * (n / power(p, multiplicity(n, p))) == n,
        n / power(p, multiplicity(n, p)) >= 1,
        (n / power(p, multiplicity(n, p))) % p != 0,
        power(p, multiplicity(n, p)) >= 1,
    decreases n,
{
    let k = multiplicity(n, p);
    lemma_power_positive(p, k);
    if n % p == 0 {
        lemma_multiplicity_step(n, p);
        lemma_div_smaller(n, p);
        let c = n / p;
        assert(n == p * c) by (nonlinear_arith)
            requires
                p >= 2,
                n % p == 0,
                c == n / p,
        ;
        assert(c >= 1) by (nonlinear_arith)
            requires
                n == p * c,
                n >= 1,
                p >= 2,
        ;
        lemma_multiplicity_split(c, p);
        let j = multiplicity(c, p);
        let q = c / power(p, j);
        assert(power(p, k) == p * power(p, j));
        assert(power(p, k) * q == n) by (nonlinear_arith)
            requires
                power(p, k) == p * power(p, j),
                power(p, j) * q == c,
                n == p * c,
        ;
        lemma_div_exact(n, power(p, k), q);
    } else {
        assert(n / 1 == n);
    }
}

/// An exact quotient.
pub proof fn lemma_div_exact(n: int, d: int, q: int)
    requires
        d >= 1,
        d * q == n,
    ensures
        n / d == q,
{
    assert(n / d == q) by (nonlinear_arith)
        requires
            d >= 1,
            d * q == n,
    ;
}

} // verus!
