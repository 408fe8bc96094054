//! Laws that tie the operations together, proved over their models.
use crate::arith::{
    is_prime, lemma_divides_trans, lemma_multiplicity_split, lemma_power_adds, lemma_power_positive,
    lemma_multiplicity_of_multiple, lemma_multiplicity_other_prime, lemma_multiplicity_power_times,
    lemma_prime_factor, lemma_small_exponent, multiplicity, power,
};
use vstd::arithmetic::div_mod::lemma_mod_multiples_basic;
use crate::factors::{
    certified, divides_pointwise, divisor_product, emit, exponent, factorization, gcd_value,
    includes_pointwise, lcm_value, lemma_exponent_at, lemma_exponent_below, lemma_exponent_present, lemma_factorization_value,
    lemma_merged_min_max_value, lemma_sorted_skip, lemma_value_emit,
    lemma_value_positive, prime_keyed, sorted_factors, unfactored, value,
};
use crate::sieve::first_primes;
use vstd::prelude::*;

verus! {

/// Dropping the first element of an increasing base keeps it increasing and leaves
/// only larger elements.
proof fn lemma_base_skip(base: Seq<u64>)
    requires
        base.len() > 0,
        forall|i: int, j: int| 0 <= i < j < base.len() ==> base[i] < base[j],
        forall|i: int| 0 <= i < base.len() ==> #[trigger] base[i] >= 2,
    ensures
        forall|i: int, j: int| 0 <= i < j < base.skip(1).len() ==> base.skip(1)[i] < base.skip(1)[j],
        forall|i: int| 0 <= i < base.skip(1).len() ==> #[trigger] base.skip(1)[i] >= 2,
        forall|i: int| 0 <= i < base.skip(1).len() ==> #[trigger] base.skip(1)[i] > base[0],
{
    assert forall|i: int| 0 <= i < base.skip(1).len() implies #[trigger] base.skip(1)[i] >= 2
        && base.skip(1)[i] > base[0] by {
        assert(base.skip(1)[i] == base[i + 1]);
    }
    assert forall|i: int, j: int| 0 <= i < j < base.skip(1).len() implies base.skip(1)[i]
        < base.skip(1)[j] by {
        assert(base.skip(1)[i] == base[i + 1] && base.skip(1)[j] == base[j + 1]);
    }
}

/// The leftover of `n` is a positive divisor of `n` that no prime of `base` divides.
proof fn lemma_unfactored_coprime(n: int, base: Seq<u64>)
    requires
        n >= 1,
        forall|i: int| 0 <= i < base.len() ==> #[trigger] base[i] >= 2,
    ensures
        unfactored(n, base) >= 1,
        n % unfactored(n, base) == 0,
        forall|j: int| 0 <= j < base.len() ==> unfactored(n, base) % (#[trigger] base[j] as int) != 0,
    decreases base.len(),
{
    if base.len() == 0 {
        assert(n % n == 0) by (nonlinear_arith)
            requires
                n >= 1,
        ;
    } else {
        let p = base[0] as int;
        assert(base[0] >= 2);
        lemma_multiplicity_split(n, p);
        let k = multiplicity(n, p);
        let c = n / power(p, k);
        let rest = base.skip(1);
        assert forall|i: int| 0 <= i < rest.len() implies #[trigger] rest[i] >= 2 by {
            assert(rest[i] == base[i + 1]);
        }
        lemma_unfactored_coprime(c, rest);
        let u = unfactored(c, rest);
        assert(n % c == 0) by (nonlinear_arith)
            requires
                power(p, k) * c == n,
                c >= 1,
        ;
        lemma_divides_trans(u, c, n);
        assert forall|j: int| 0 <= j < base.len() implies u % (#[trigger] base[j] as int) != 0 by {
            if j == 0 {
                if u % p == 0 {
                    lemma_divides_trans(p, u, c);
                }
            } else {
                assert(rest[j - 1] == base[j]);
            }
        }
    }
}

/// Factorizing `n >= 2` over a base that holds every prime up to `n` succeeds, and the
/// factorization multiplies back to `n`.
pub proof fn lemma_round_trip(n: int, base: Seq<u64>)
    requires
        2 <= n <= u64::MAX,
        first_primes(base),
        forall|q: int| #![trigger is_prime(q)] is_prime(q) && q <= n ==> base.contains(q as u64),
    ensures
        certified(n, base),
        value(factorization(n, base)) == n,
{
    assert forall|i: int| 0 <= i < base.len() implies #[trigger] base[i] >= 2 by {
        assert(is_prime(base[i] as int));
    }
    lemma_unfactored_coprime(n, base);
    let u = unfactored(n, base);
    if u >= 2 {
        let q = lemma_prime_factor(u);
        assert(u <= n) by (nonlinear_arith)
            requires
                n % u == 0,
                n >= 1,
                u >= 1,
        ;
        assert(base.contains(q as u64));
        let j = choose|j: int| 0 <= j < base.len() && base[j] == q as u64;
        assert(u % (base[j] as int) != 0);
    }
    lemma_factorization_value(n, base);
}

/// Over an increasing base of numbers at least 2, a factorization is sorted and its
/// primes are not below the first of the base.
pub proof fn lemma_factorization_sorted(n: int, base: Seq<u64>)
    requires
        1 <= n <= u64::MAX,
        forall|i: int, j: int| 0 <= i < j < base.len() ==> base[i] < base[j],
        forall|i: int| 0 <= i < base.len() ==> #[trigger] base[i] >= 2,
    ensures
        sorted_factors(factorization(n, base)),
        base.len() > 0 ==> forall|i: int|
            0 <= i < factorization(n, base).len() ==> #[trigger] factorization(n, base)[i].0 >= base[0],
    decreases base.len(),
{
    if base.len() > 0 {
        let p = base[0] as int;
        assert(base[0] >= 2);
        lemma_multiplicity_split(n, p);
        let k = multiplicity(n, p);
        let c = n / power(p, k);
        assert(c <= n && power(p, k) <= n) by (nonlinear_arith)
            requires
                power(p, k) * c == n,
                power(p, k) >= 1,
                c >= 1,
        ;
        lemma_small_exponent(p, k);
        lemma_base_skip(base);
        lemma_factorization_sorted(c, base.skip(1));
        let rest = factorization(c, base.skip(1));
        if base.len() > 1 {
            assert(base.skip(1)[0] == base[1]);
        }
        assert(rest.len() > 0 ==> base.skip(1).len() > 0);
        let f = factorization(n, base);
        assert(f == emit(base[0], k, rest));
        if k > 0 {
            assert forall|i: int| 0 <= i < f.len() implies #[trigger] f[i].0 >= 2 && f[i].1 > 0 && f[i].0
                >= base[0] by {
                if i > 0 {
                    assert(f[i] == rest[i - 1]);
                }
            }
            assert forall|i: int, j: int| 0 <= i < j < f.len() implies f[i].0 < f[j].0 by {
                assert(f[j] == rest[j - 1]);
                if i > 0 {
                    assert(f[i] == rest[i - 1]);
                }
            }
        } else {
            assert forall|i: int| 0 <= i < f.len() implies #[trigger] f[i].0 >= base[0] by {
                assert(rest[i].0 >= base[1]);
            }
        }
    }
}

/// For `m, n >= 2` that the base factors, the greatest common divisor times the least
/// common multiple is `m * n`.
pub proof fn lemma_gcd_times_lcm(m: int, n: int, base: Seq<u64>)
    requires
        2 <= m <= u64::MAX,
        2 <= n <= u64::MAX,
        first_primes(base),
        certified(m, base),
        certified(n, base),
    ensures
        gcd_value(m, n, base) * lcm_value(m, n, base) == m * n,
{
    assert forall|i: int| 0 <= i < base.len() implies #[trigger] base[i] >= 2 by {
        assert(is_prime(base[i] as int));
    }
    lemma_factorization_sorted(m, base);
    lemma_factorization_sorted(n, base);
    lemma_factorization_value(m, base);
    lemma_factorization_value(n, base);
    lemma_merged_min_max_value(factorization(m, base), factorization(n, base));
}

/// Where every exponent of `a` is at most that of `b`, the integer of `a` divides the
/// integer of `b`: the result is the cofactor.
pub proof fn lemma_subset_divides(a: Seq<(u64, u8)>, b: Seq<(u64, u8)>) -> (c: int)
    requires
        sorted_factors(a),
        sorted_factors(b),
        divides_pointwise(a, b),
    ensures
        c >= 1,
        value(b) == value(a) * c,
    decreases a.len() + b.len(),
{
    if a.len() == 0 {
        crate::factors::lemma_value_positive(b);
        value(b)
    } else {
        lemma_exponent_at(a, 0);
        assert(exponent(a, a[0].0) <= exponent(b, a[0].0));
        lemma_sorted_skip(a);
        if b.len() == 0 || a[0].0 < b[0].0 {
            lemma_exponent_below(b, a[0].0);
            0
        } else if b[0].0 < a[0].0 {
            lemma_sorted_skip(b);
            assert forall|p: u64| #[trigger] exponent(a, p) <= exponent(b.skip(1), p) by {
                if p == b[0].0 {
                    lemma_exponent_below(a, p);
                } else {
                    assert(exponent(a, p) <= exponent(b, p));
                }
            }
            let c = lemma_subset_divides(a, b.skip(1));
            let pw = power(b[0].0 as int, b[0].1 as nat);
            lemma_power_positive(b[0].0 as int, b[0].1 as nat);
            assert(pw * (value(a) * c) == value(a) * (pw * c)) by (nonlinear_arith);
            assert(pw * c >= 1) by (nonlinear_arith)
                requires
                    pw >= 1,
                    c >= 1,
            ;
            pw * c
        } else {
            lemma_sorted_skip(b);
            let p0 = a[0].0;
            assert forall|p: u64| #[trigger] exponent(a.skip(1), p) <= exponent(b.skip(1), p) by {
                if p == p0 {
                    if a.len() > 1 {
                        assert(a.skip(1)[0] == a[1]);
                    }
                    lemma_exponent_below(a.skip(1), p);
                } else {
                    assert(exponent(a, p) <= exponent(b, p));
                }
            }
            let c = lemma_subset_divides(a.skip(1), b.skip(1));
            let (q, ea, eb) = (p0 as int, a[0].1 as nat, b[0].1 as nat);
            lemma_power_adds(q, ea, (eb - ea) as nat);
            let d = power(q, (eb - ea) as nat);
            lemma_power_positive(q, (eb - ea) as nat);
            let (x, va) = (power(q, ea), value(a.skip(1)));
            assert((x * d) * (va * c) == (x * va) * (d * c)) by (nonlinear_arith);
            assert(d * c >= 1) by (nonlinear_arith)
                requires
                    d >= 1,
                    c >= 1,
            ;
            d * c
        }
    }
}

/// In a sorted factorization with prime keys, the exponent of a prime is its
/// multiplicity in the integer that the factorization stands for.
pub proof fn lemma_exponent_is_multiplicity(s: Seq<(u64, u8)>, p: u64)
    requires
        sorted_factors(s),
        prime_keyed(s),
        is_prime(p as int),
    ensures
        exponent(s, p) == multiplicity(value(s), p as int),
    decreases s.len(),
{
    if s.len() == 0 {
        assert(1int % (p as int) == 1) by (nonlinear_arith)
            requires
                p >= 2,
        ;
    } else {
        lemma_sorted_skip(s);
        let t = s.skip(1);
        assert forall|i: int| 0 <= i < t.len() implies is_prime(#[trigger] t[i].0 as int) && t[i].0 >= 1 by {
            assert(t[i] == s[i + 1]);
        }
        lemma_exponent_is_multiplicity(t, p);
        lemma_value_positive(t);
        let (q, e) = (s[0].0, s[0].1 as nat);
        assert(is_prime(q as int));
        if q == p {
            lemma_multiplicity_power_times(p as int, e, value(t));
            if t.len() > 0 {
                assert(t[0] == s[1]);
            }
            lemma_exponent_below(t, p);
        } else {
            lemma_multiplicity_other_prime(p as int, q as int, e, value(t));
        }
    }
}

/// For factorizations with prime keys, every exponent of `a` is at most that of `b`
/// exactly when the integer of `a` divides the integer of `b`.
pub proof fn lemma_subset_iff_divides(a: Seq<(u64, u8)>, b: Seq<(u64, u8)>)
    requires
        sorted_factors(a),
        prime_keyed(a),
        sorted_factors(b),
        prime_keyed(b),
    ensures
        divides_pointwise(a, b) <==> value(b) % value(a) == 0,
{
    assert forall|i: int| 0 <= i < a.len() implies #[trigger] a[i].0 >= 1 by {}
    assert forall|i: int| 0 <= i < b.len() implies #[trigger] b[i].0 >= 1 by {}
    lemma_value_positive(a);
    lemma_value_positive(b);
    if divides_pointwise(a, b) {
        let c = lemma_subset_divides(a, b);
        lemma_mod_multiples_basic(c, value(a));
        assert(c * value(a) == value(a) * c) by (nonlinear_arith);
    }
    if value(b) % value(a) == 0 {
        assert forall|p: u64| #[trigger] exponent(a, p) <= exponent(b, p) by {
            if is_prime(p as int) {
                lemma_exponent_is_multiplicity(a, p);
                lemma_exponent_is_multiplicity(b, p);
                lemma_multiplicity_of_multiple(value(a), value(b), p as int);
            } else if exponent(a, p) > 0 {
                let i = lemma_exponent_present(a, p);
                assert(is_prime(a[i].0 as int));
            }
        }
    }
}

/// Including is the converse of dividing, prime by prime.
pub proof fn lemma_superset_converse(a: Seq<(u64, u8)>, b: Seq<(u64, u8)>)
    ensures
        includes_pointwise(a, b) == divides_pointwise(b, a),
{
}

/// The empty factorization has one divisor; a single prime to the power `e` has `e + 1`.
pub proof fn lemma_divisor_count_small(p: u64, e: u8)
    ensures
        divisor_product(Seq::empty()) == 1,
        divisor_product(seq![(p, e)]) == e + 1,
{
    let s = seq![(p, e)];
    assert(s.skip(1).len() == 0);
    assert(divisor_product(s.skip(1)) == 1);
    assert(s[0].1 == e);
    assert(divisor_product(s) == (e + 1) * 1);
}

} // verus!
