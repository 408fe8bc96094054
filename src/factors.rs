//! Factorizations: maps from primes to positive exponents, kept as a list sorted by prime.
use crate::arith::{
    is_prime, lemma_div_exact, lemma_div_smaller, lemma_divides_trans, lemma_multiplicity_split,
    lemma_multiplicity_step, lemma_power_adds, lemma_power_monotone, lemma_power_positive,
    lemma_prime_factor, lemma_small_exponent, multiplicity, power,
};
use crate::sieve::{first_primes, Primes};
use vstd::prelude::*;

verus! {

/// Keys are at least 2 and strictly increasing; exponents are positive.
pub open spec fn sorted_factors(s: Seq<(u64, u8)>) -> bool {
    &&& forall|i: int| 0 <= i < s.len() ==> #[trigger] s[i].0 >= 2 && s[i].1 > 0
    &&& forall|i: int, j: int| 0 <= i < j < s.len() ==> s[i].0 < s[j].0
}

/// Every key is a prime.
pub open spec fn prime_keyed(s: Seq<(u64, u8)>) -> bool {
    forall|i: int| 0 <= i < s.len() ==> is_prime(#[trigger] s[i].0 as int)
}

/// The exponent of `p` in `s`, zero where `p` is absent.
pub open spec fn exponent(s: Seq<(u64, u8)>, p: u64) -> nat
    decreases s.len(),
{
    if s.len() == 0 {
        0
    } else if s[0].0 == p {
        s[0].1 as nat
    } else {
        exponent(s.skip(1), p)
    }
}

/// The integer that `s` stands for: the product of `p^e` over its entries.
pub open spec fn value(s: Seq<(u64, u8)>) -> int
    decreases s.len(),
{
    if s.len() == 0 {
        1
    } else {
        power(s[0].0 as int, s[0].1 as nat) * value(s.skip(1))
    }
}

/// The number of divisors of the integer that `s` stands for: the product of `e + 1`.
pub open spec fn divisor_product(s: Seq<(u64, u8)>) -> int
    decreases s.len(),
{
    if s.len() == 0 {
        1
    } else {
        (s[0].1 + 1) * divisor_product(s.skip(1))
    }
}

/// The product of `p^e - p^(e-1)` over the entries of `s`.
pub open spec fn phi_product(s: Seq<(u64, u8)>) -> int
    decreases s.len(),
{
    if s.len() == 0 {
        1
    } else {
        (power(s[0].0 as int, s[0].1 as nat) - power(s[0].0 as int, (s[0].1 - 1) as nat))
            * phi_product(s.skip(1))
    }
}

/// Euler's totient as this library defines it: zero for the empty factorization, the
/// product of `p^e - p^(e-1)` otherwise.
pub open spec fn totient_of(s: Seq<(u64, u8)>) -> int {
    if s.len() == 0 {
        0
    } else {
        phi_product(s)
    }
}

/// Skipping `i` entries and then one more is skipping `i + 1`.
proof fn lemma_skip_skip(s: Seq<(u64, u8)>, i: int)
    requires
        0 <= i < s.len(),
    ensures
        s.skip(i)[0] == s[i],
        s.skip(i).skip(1) == s.skip(i + 1),
{
    assert(s.skip(i).skip(1) =~= s.skip(i + 1));
}

/// Skipping `i` primes and then one more is skipping `i + 1`.
proof fn lemma_skip_skip_u64(s: Seq<u64>, i: int)
    requires
        0 <= i < s.len(),
    ensures
        s.skip(i)[0] == s[i],
        s.skip(i).skip(1) == s.skip(i + 1),
{
    assert(s.skip(i).skip(1) =~= s.skip(i + 1));
}

/// The integer of entries with positive keys is positive.
pub proof fn lemma_value_positive(s: Seq<(u64, u8)>)
    requires
        forall|i: int| 0 <= i < s.len() ==> #[trigger] s[i].0 >= 1,
    ensures
        value(s) >= 1,
    decreases s.len(),
{
    if s.len() > 0 {
        assert(s[0].0 >= 1);
        assert forall|i: int| 0 <= i < s.skip(1).len() implies #[trigger] s.skip(1)[i].0 >= 1 by {
            assert(s.skip(1)[i] == s[i + 1]);
        }
        lemma_value_positive(s.skip(1));
        lemma_power_positive(s[0].0 as int, s[0].1 as nat);
        assert(power(s[0].0 as int, s[0].1 as nat) * value(s.skip(1)) >= 1) by (nonlinear_arith)
            requires
                power(s[0].0 as int, s[0].1 as nat) >= 1,
                value(s.skip(1)) >= 1,
        ;
    }
}

/// Each factor `p^e` and each suffix product is bounded by the whole product.
proof fn lemma_value_suffix(s: Seq<(u64, u8)>, i: int)
    requires
        sorted_factors(s),
        0 <= i < s.len(),
    ensures
        value(s.skip(i)) == power(s[i].0 as int, s[i].1 as nat) * value(s.skip(i + 1)),
        power(s[i].0 as int, s[i].1 as nat) <= value(s.skip(i)),
        value(s.skip(i + 1)) <= value(s.skip(i)) <= value(s),
        value(s.skip(i + 1)) >= 1,
    decreases i,
{
    lemma_skip_skip(s, i);
    let t = s.skip(i + 1);
    assert forall|k: int| 0 <= k < t.len() implies #[trigger] t[k].0 >= 1 by {
        assert(t[k] == s[i + 1 + k]);
    }
    lemma_value_positive(t);
    lemma_power_positive(s[i].0 as int, s[i].1 as nat);
    let pw = power(s[i].0 as int, s[i].1 as nat);
    assert(pw <= pw * value(t) && value(t) <= pw * value(t)) by (nonlinear_arith)
        requires
            pw >= 1,
            value(t) >= 1,
    ;
    if i > 0 {
        lemma_value_suffix(s, i - 1);
    } else {
        assert(s.skip(0) =~= s);
    }
}

/// `b^e`, where the result fits in a `u64`.
fn pow_u64(b: u64, e: u8) -> (r: u64)
    requires
        b >= 1,
        power(b as int, e as nat) <= u64::MAX,
    ensures
        r == power(b as int, e as nat),
{
    let mut r: u64 = 1;
    let mut i: u8 = 0;
    while i < e
        invariant
            i <= e,
            b >= 1,
            power(b as int, e as nat) <= u64::MAX,
            r == power(b as int, i as nat),
        decreases e - i,
    {
        proof {
            lemma_power_monotone(b as int, (i + 1) as nat, e as nat);
            assert(power(b as int, (i + 1) as nat) == b * power(b as int, i as nat));
            assert(r * b == b * r) by (nonlinear_arith);
        }
        r = r * b;
        i = i + 1;
    }
    r
}

/// How two exponents of the same prime are combined.
#[derive(Clone, Copy, PartialEq, Eq, Structural)]
pub enum Combine {
    /// Exponents add up: the product.
    Sum,
    /// The larger exponent: the least common multiple.
    Max,
    /// The smaller exponent: the greatest common divisor.
    Min,
}

/// Combines two exponents of one prime by `op`.
pub open spec fn combine(op: Combine, x: nat, y: nat) -> nat {
    match op {
        Combine::Sum => x + y,
        Combine::Max => if x >= y { x } else { y },
        Combine::Min => if x <= y { x } else { y },
    }
}

/// `rest` with the entry `(p, e)` in front, unless `e` is zero.
pub open spec fn emit(p: u64, e: nat, rest: Seq<(u64, u8)>) -> Seq<(u64, u8)> {
    if e > 0 {
        seq![(p, e as u8)] + rest
    } else {
        rest
    }
}

/// The factorization whose exponent for each prime combines, by `op`, the exponents
/// that `a` and `b` give it; built by walking both sorted lists at once.
pub open spec fn merged(a: Seq<(u64, u8)>, b: Seq<(u64, u8)>, op: Combine) -> Seq<(u64, u8)>
    decreases a.len() + b.len(),
{
    if a.len() == 0 && b.len() == 0 {
        seq![]
    } else if b.len() == 0 || (a.len() > 0 && a[0].0 < b[0].0) {
        emit(a[0].0, combine(op, a[0].1 as nat, 0), merged(a.skip(1), b, op))
    } else if a.len() == 0 || b[0].0 < a[0].0 {
        emit(b[0].0, combine(op, 0, b[0].1 as nat), merged(a, b.skip(1), op))
    } else {
        emit(a[0].0, combine(op, a[0].1 as nat, b[0].1 as nat), merged(a.skip(1), b.skip(1), op))
    }
}

/// For each prime present in both, the two exponents add up to at most 255.
pub open spec fn sums_fit(a: Seq<(u64, u8)>, b: Seq<(u64, u8)>) -> bool {
    forall|i: int, j: int|
        0 <= i < a.len() && 0 <= j < b.len() && #[trigger] a[i].0 == #[trigger] b[j].0 ==> a[i].1
            + b[j].1 <= 255
}

/// Combines two exponents of one prime by `op`.
fn combine_exec(op: Combine, x: u8, y: u8) -> (r: u8)
    requires
        op == Combine::Sum ==> x + y <= 255,
    ensures
        r == combine(op, x as nat, y as nat),
{
    match op {
        Combine::Sum => x + y,
        Combine::Max => if x >= y { x } else { y },
        Combine::Min => if x <= y { x } else { y },
    }
}

/// Pushing an entry is appending it in front of the rest.
proof fn lemma_emit_append(r: Seq<(u64, u8)>, p: u64, e: nat, rest: Seq<(u64, u8)>)
    requires
        0 < e <= 255,
    ensures
        r + emit(p, e, rest) == r.push((p, e as u8)) + rest,
{
    assert(r + (seq![(p, e as u8)] + rest) =~= r.push((p, e as u8)) + rest);
}

/// Dropping the first entry keeps a factorization sorted and divides out its first
/// prime power.
pub proof fn lemma_sorted_skip(s: Seq<(u64, u8)>)
    requires
        sorted_factors(s),
        s.len() > 0,
    ensures
        sorted_factors(s.skip(1)),
        value(s) == power(s[0].0 as int, s[0].1 as nat) * value(s.skip(1)),
{
    let t = s.skip(1);
    assert forall|i: int| 0 <= i < t.len() implies #[trigger] t[i].0 >= 2 && t[i].1 > 0 by {
        assert(t[i] == s[i + 1]);
    }
    assert forall|i: int, j: int| 0 <= i < j < t.len() implies t[i].0 < t[j].0 by {
        assert(t[i] == s[i + 1] && t[j] == s[j + 1]);
    }
}

/// Any suffix of a sorted factorization is sorted.
proof fn lemma_sorted_suffix(s: Seq<(u64, u8)>, d: int)
    requires
        sorted_factors(s),
        0 <= d <= s.len(),
    ensures
        sorted_factors(s.skip(d)),
{
    let t = s.skip(d);
    assert forall|i: int| 0 <= i < t.len() implies #[trigger] t[i].0 >= 2 && t[i].1 > 0 by {
        assert(t[i] == s[i + d]);
    }
    assert forall|i: int, j: int| 0 <= i < j < t.len() implies t[i].0 < t[j].0 by {
        assert(t[i] == s[i + d] && t[j] == s[j + d]);
    }
}

/// Exponent sums still fit once entries are dropped from the front.
proof fn lemma_sums_fit_skip(a: Seq<(u64, u8)>, b: Seq<(u64, u8)>, da: int, db: int)
    requires
        sums_fit(a, b),
        0 <= da <= a.len(),
        0 <= db <= b.len(),
    ensures
        sums_fit(a.skip(da), b.skip(db)),
{
    let (x, y) = (a.skip(da), b.skip(db));
    assert forall|i: int, j: int|
        0 <= i < x.len() && 0 <= j < y.len() && #[trigger] x[i].0 == #[trigger] y[j].0 implies x[i].1
        + y[j].1 <= 255 by {
        assert(x[i] == a[i + da] && y[j] == b[j + db]);
    }
}

/// Adding an entry in front multiplies the integer by its prime power.
pub proof fn lemma_value_emit(p: u64, e: nat, rest: Seq<(u64, u8)>)
    requires
        e <= 255,
    ensures
        value(emit(p, e, rest)) == power(p as int, e) * value(rest),
{
    if e > 0 {
        let t = seq![(p, e as u8)] + rest;
        assert(t[0] == (p, e as u8));
        assert(t.skip(1) =~= rest);
    } else {
        assert(power(p as int, 0) == 1);
    }
}

/// Regrouping a product of three factors.
proof fn lemma_mul_rearrange(w: int, x: int, y: int)
    ensures
        w * (x * y) == (w * x) * y,
        w * (x * y) == x * (w * y),
{
    assert(w * (x * y) == (w * x) * y) by (nonlinear_arith);
    assert(w * (x * y) == x * (w * y)) by (nonlinear_arith);
}

/// The exponent-wise sum of two factorizations stands for the product of their integers.
pub proof fn lemma_merged_sum_value(a: Seq<(u64, u8)>, b: Seq<(u64, u8)>)
    requires
        sorted_factors(a),
        sorted_factors(b),
        sums_fit(a, b),
    ensures
        value(merged(a, b, Combine::Sum)) == value(a) * value(b),
    decreases a.len() + b.len(),
{
    let op = Combine::Sum;
    if a.len() == 0 && b.len() == 0 {
    } else if b.len() == 0 || (a.len() > 0 && a[0].0 < b[0].0) {
        lemma_sorted_skip(a);
        lemma_sums_fit_skip(a, b, 1, 0);
        assert(b.skip(0) =~= b);
        lemma_merged_sum_value(a.skip(1), b);
        lemma_value_emit(a[0].0, a[0].1 as nat, merged(a.skip(1), b, op));
        lemma_mul_rearrange(power(a[0].0 as int, a[0].1 as nat), value(a.skip(1)), value(b));
    } else if a.len() == 0 || b[0].0 < a[0].0 {
        lemma_sorted_skip(b);
        lemma_sums_fit_skip(a, b, 0, 1);
        assert(a.skip(0) =~= a);
        lemma_merged_sum_value(a, b.skip(1));
        lemma_value_emit(b[0].0, b[0].1 as nat, merged(a, b.skip(1), op));
        lemma_mul_rearrange(power(b[0].0 as int, b[0].1 as nat), value(a), value(b.skip(1)));
    } else {
        lemma_sorted_skip(a);
        lemma_sorted_skip(b);
        lemma_sums_fit_skip(a, b, 1, 1);
        lemma_merged_sum_value(a.skip(1), b.skip(1));
        assert(a[0].1 + b[0].1 <= 255);
        lemma_value_emit(a[0].0, (a[0].1 + b[0].1) as nat, merged(a.skip(1), b.skip(1), op));
        let p = a[0].0 as int;
        lemma_power_adds(p, a[0].1 as nat, b[0].1 as nat);
        let (pa, pb, va, vb) = (power(p, a[0].1 as nat), power(p, b[0].1 as nat), value(a.skip(1)), value(b.skip(1)));
        assert((pa * pb) * (va * vb) == (pa * va) * (pb * vb)) by (nonlinear_arith);
    }
}

/// The exponent-wise minimum and maximum of two factorizations stand for two integers
/// whose product is the product of the integers of the two.
pub proof fn lemma_merged_min_max_value(a: Seq<(u64, u8)>, b: Seq<(u64, u8)>)
    requires
        sorted_factors(a),
        sorted_factors(b),
    ensures
        value(merged(a, b, Combine::Min)) * value(merged(a, b, Combine::Max)) == value(a) * value(b),
    decreases a.len() + b.len(),
{
    let (lo, hi) = (Combine::Min, Combine::Max);
    if a.len() == 0 && b.len() == 0 {
    } else if b.len() == 0 || (a.len() > 0 && a[0].0 < b[0].0) {
        lemma_sorted_skip(a);
        lemma_merged_min_max_value(a.skip(1), b);
        lemma_value_emit(a[0].0, 0, merged(a.skip(1), b, lo));
        lemma_value_emit(a[0].0, a[0].1 as nat, merged(a.skip(1), b, hi));
        let (pw, x, y) = (power(a[0].0 as int, a[0].1 as nat), value(merged(a.skip(1), b, lo)), value(merged(a.skip(1), b, hi)));
        assert(x * (pw * y) == pw * (x * y)) by (nonlinear_arith);
        lemma_mul_rearrange(pw, value(a.skip(1)), value(b));
    } else if a.len() == 0 || b[0].0 < a[0].0 {
        lemma_sorted_skip(b);
        lemma_merged_min_max_value(a, b.skip(1));
        lemma_value_emit(b[0].0, 0, merged(a, b.skip(1), lo));
        lemma_value_emit(b[0].0, b[0].1 as nat, merged(a, b.skip(1), hi));
        let (pw, x, y) = (power(b[0].0 as int, b[0].1 as nat), value(merged(a, b.skip(1), lo)), value(merged(a, b.skip(1), hi)));
        assert(x * (pw * y) == pw * (x * y)) by (nonlinear_arith);
        lemma_mul_rearrange(pw, value(a), value(b.skip(1)));
    } else {
        lemma_sorted_skip(a);
        lemma_sorted_skip(b);
        lemma_merged_min_max_value(a.skip(1), b.skip(1));
        let p = a[0].0 as int;
        let (ea, eb) = (a[0].1 as nat, b[0].1 as nat);
        lemma_value_emit(a[0].0, combine(lo, ea, eb), merged(a.skip(1), b.skip(1), lo));
        lemma_value_emit(a[0].0, combine(hi, ea, eb), merged(a.skip(1), b.skip(1), hi));
        let (pa, pb, va, vb) = (power(p, ea), power(p, eb), value(a.skip(1)), value(b.skip(1)));
        let (x, y) = (value(merged(a.skip(1), b.skip(1), lo)), value(merged(a.skip(1), b.skip(1), hi)));
        assert(power(p, combine(lo, ea, eb)) * power(p, combine(hi, ea, eb)) == pa * pb) by (nonlinear_arith)
            requires
                (power(p, combine(lo, ea, eb)) == pa && power(p, combine(hi, ea, eb)) == pb)
                    || (power(p, combine(lo, ea, eb)) == pb && power(p, combine(hi, ea, eb)) == pa),
        ;
        assert((power(p, combine(lo, ea, eb)) * x) * (power(p, combine(hi, ea, eb)) * y)
            == (power(p, combine(lo, ea, eb)) * power(p, combine(hi, ea, eb))) * (x * y)) by (nonlinear_arith);
        assert((pa * pb) * (va * vb) == (pa * va) * (pb * vb)) by (nonlinear_arith);
    }
}

/// In a sorted factorization, the exponent of a key is the one stored with it.
pub proof fn lemma_exponent_at(s: Seq<(u64, u8)>, i: int)
    requires
        sorted_factors(s),
        0 <= i < s.len(),
    ensures
        exponent(s, s[i].0) == s[i].1,
    decreases i,
{
    if i > 0 {
        lemma_sorted_skip(s);
        assert(s.skip(1)[i - 1] == s[i]);
        lemma_exponent_at(s.skip(1), i - 1);
    }
}

/// A prime with a positive exponent is stored at some index.
pub proof fn lemma_exponent_present(s: Seq<(u64, u8)>, p: u64) -> (i: int)
    requires
        exponent(s, p) > 0,
    ensures
        0 <= i < s.len(),
        s[i].0 == p,
        s[i].1 == exponent(s, p),
    decreases s.len(),
{
    if s[0].0 == p {
        0
    } else {
        let k = lemma_exponent_present(s.skip(1), p);
        assert(s.skip(1)[k] == s[k + 1]);
        k + 1
    }
}

/// The totient product never exceeds the integer.
proof fn lemma_phi_le_value(t: Seq<(u64, u8)>)
    requires
        sorted_factors(t),
    ensures
        0 <= phi_product(t) <= value(t),
    decreases t.len(),
{
    if t.len() > 0 {
        lemma_sorted_skip(t);
        lemma_phi_le_value(t.skip(1));
        let (p, e) = (t[0].0 as int, t[0].1 as nat);
        lemma_power_monotone(p, (e - 1) as nat, e);
        lemma_power_positive(p, (e - 1) as nat);
        let d = power(p, e) - power(p, (e - 1) as nat);
        let (f, v) = (phi_product(t.skip(1)), value(t.skip(1)));
        assert(0 <= d * f <= power(p, e) * v) by (nonlinear_arith)
            requires
                0 <= d <= power(p, e),
                0 <= f <= v,
        ;
    }
}

/// The divisor-count product is positive.
proof fn lemma_divisor_positive(t: Seq<(u64, u8)>)
    ensures
        divisor_product(t) >= 1,
    decreases t.len(),
{
    if t.len() > 0 {
        lemma_divisor_positive(t.skip(1));
        let g = divisor_product(t.skip(1));
        assert((t[0].1 + 1) * g >= 1) by (nonlinear_arith)
            requires
                g >= 1,
        ;
    }
}

/// Each suffix of the divisor-count product is bounded by the whole product.
proof fn lemma_divisor_suffix(s: Seq<(u64, u8)>, i: int)
    requires
        0 <= i <= s.len(),
    ensures
        1 <= divisor_product(s.skip(i)) <= divisor_product(s),
    decreases i,
{
    lemma_divisor_positive(s.skip(i));
    if i == 0 {
        assert(s.skip(0) =~= s);
    } else {
        lemma_divisor_suffix(s, i - 1);
        lemma_skip_skip(s, i - 1);
        let g = divisor_product(s.skip(i));
        assert(g <= (s[i - 1].1 + 1) * g) by (nonlinear_arith)
            requires
                g >= 1,
        ;
    }
}

/// A prime below the first key of a sorted factorization is absent from it.
pub proof fn lemma_exponent_below(s: Seq<(u64, u8)>, p: u64)
    requires
        sorted_factors(s),
        s.len() > 0 ==> p < s[0].0,
    ensures
        exponent(s, p) == 0,
    decreases s.len(),
{
    if s.len() > 0 {
        lemma_sorted_skip(s);
        if s.len() > 1 {
            assert(s.skip(1)[0] == s[1]);
        }
        lemma_exponent_below(s.skip(1), p);
    }
}

/// The exponent of each prime in a merge combines, by `op`, its exponents in the two
/// factorizations.
pub proof fn lemma_merged_exponent(a: Seq<(u64, u8)>, b: Seq<(u64, u8)>, op: Combine, p: u64)
    requires
        sorted_factors(a),
        sorted_factors(b),
        op == Combine::Sum ==> sums_fit(a, b),
    ensures
        exponent(merged(a, b, op), p) == combine(op, exponent(a, p), exponent(b, p)),
    decreases a.len() + b.len(),
{
    if a.len() == 0 && b.len() == 0 {
    } else if b.len() == 0 || (a.len() > 0 && a[0].0 < b[0].0) {
        lemma_sorted_skip(a);
        if op == Combine::Sum {
            lemma_sums_fit_skip(a, b, 1, 0);
        }
        assert(b.skip(0) =~= b);
        lemma_merged_exponent(a.skip(1), b, op, p);
        let q = a[0].0;
        if q == p {
            lemma_exponent_below(b, p);
            if a.len() > 1 {
                assert(a.skip(1)[0] == a[1]);
            }
            lemma_exponent_below(a.skip(1), p);
        }
        lemma_exponent_emit(q, combine(op, a[0].1 as nat, 0), merged(a.skip(1), b, op), p);
    } else if a.len() == 0 || b[0].0 < a[0].0 {
        lemma_sorted_skip(b);
        if op == Combine::Sum {
            lemma_sums_fit_skip(a, b, 0, 1);
        }
        assert(a.skip(0) =~= a);
        lemma_merged_exponent(a, b.skip(1), op, p);
        let q = b[0].0;
        if q == p {
            lemma_exponent_below(a, p);
            if b.len() > 1 {
                assert(b.skip(1)[0] == b[1]);
            }
            lemma_exponent_below(b.skip(1), p);
        }
        lemma_exponent_emit(q, combine(op, 0, b[0].1 as nat), merged(a, b.skip(1), op), p);
    } else {
        lemma_sorted_skip(a);
        lemma_sorted_skip(b);
        if op == Combine::Sum {
            lemma_sums_fit_skip(a, b, 1, 1);
        }
        lemma_merged_exponent(a.skip(1), b.skip(1), op, p);
        let q = a[0].0;
        if q == p {
            if a.len() > 1 {
                assert(a.skip(1)[0] == a[1]);
            }
            if b.len() > 1 {
                assert(b.skip(1)[0] == b[1]);
            }
            lemma_exponent_below(a.skip(1), p);
            lemma_exponent_below(b.skip(1), p);
        }
        lemma_exponent_emit(
            q,
            combine(op, a[0].1 as nat, b[0].1 as nat),
            merged(a.skip(1), b.skip(1), op),
            p,
        );
    }
}

/// The exponent of `p` after adding an entry in front.
proof fn lemma_exponent_emit(q: u64, e: nat, rest: Seq<(u64, u8)>, p: u64)
    requires
        e <= 255,
    ensures
        exponent(emit(q, e, rest), p) == if e > 0 && q == p {
            e
        } else {
            exponent(rest, p)
        },
{
    if e > 0 {
        let t = seq![(q, e as u8)] + rest;
        assert(t[0] == (q, e as u8));
        assert(t.skip(1) =~= rest);
    }
}

/// Walks two sorted factorizations at once and combines their exponents by `op`.
fn merge(a: &Vec<(u64, u8)>, b: &Vec<(u64, u8)>, op: Combine) -> (r: Vec<(u64, u8)>)
    requires
        sorted_factors(a@),
        sorted_factors(b@),
        prime_keyed(a@),
        prime_keyed(b@),
        op == Combine::Sum ==> sums_fit(a@, b@),
    ensures
        r@ == merged(a@, b@, op),
        sorted_factors(r@),
        prime_keyed(r@),
{
    let mut r: Vec<(u64, u8)> = Vec::new();
    let mut i: usize = 0;
    let mut j: usize = 0;
    proof {
        assert(a@.skip(0) =~= a@);
        assert(b@.skip(0) =~= b@);
        assert(r@ + merged(a@, b@, op) =~= merged(a@, b@, op));
    }
    while i < a.len() || j < b.len()
        invariant
            i <= a@.len(),
            j <= b@.len(),
            sorted_factors(a@),
            sorted_factors(b@),
            op == Combine::Sum ==> sums_fit(a@, b@),
            r@ + merged(a@.skip(i as int), b@.skip(j as int), op) == merged(a@, b@, op),
            sorted_factors(r@),
            prime_keyed(a@),
            prime_keyed(b@),
            prime_keyed(r@),
            r@.len() > 0 && i < a@.len() ==> r@.last().0 < a@[i as int].0,
            r@.len() > 0 && j < b@.len() ==> r@.last().0 < b@[j as int].0,
        decreases a@.len() - i + b@.len() - j,
    {
        let ghost old_r = r@;
        let ghost sa = a@.skip(i as int);
        let ghost sb = b@.skip(j as int);
        if j == b.len() || (i < a.len() && a[i].0 < b[j].0) {
            proof {
                lemma_skip_skip(a@, i as int);
            }
            let v = combine_exec(op, a[i].1, 0);
            if v > 0 {
                r.push((a[i].0, v));
                proof {
                    lemma_emit_append(old_r, a@[i as int].0, v as nat, merged(sa.skip(1), sb, op));
                }
            }
            i = i + 1;
        } else if i == a.len() || b[j].0 < a[i].0 {
            proof {
                lemma_skip_skip(b@, j as int);
            }
            let v = combine_exec(op, 0, b[j].1);
            if v > 0 {
                r.push((b[j].0, v));
                proof {
                    lemma_emit_append(old_r, b@[j as int].0, v as nat, merged(sa, sb.skip(1), op));
                }
            }
            j = j + 1;
        } else {
            proof {
                lemma_skip_skip(a@, i as int);
                lemma_skip_skip(b@, j as int);
            }
            let v = combine_exec(op, a[i].1, b[j].1);
            if v > 0 {
                r.push((a[i].0, v));
                proof {
                    lemma_emit_append(
                        old_r,
                        a@[i as int].0,
                        v as nat,
                        merged(sa.skip(1), sb.skip(1), op),
                    );
                }
            }
            i = i + 1;
            j = j + 1;
        }
    }
    proof {
        assert(r@ + seq![] =~= r@);
    }
    r
}

/// What is left of `n` once every prime of `base` has been divided out of it as often
/// as it divides.
pub open spec fn unfactored(n: int, base: Seq<u64>) -> int
    decreases base.len(),
{
    if base.len() == 0 {
        n
    } else {
        unfactored(n / power(base[0] as int, multiplicity(n, base[0] as int)), base.skip(1))
    }
}

/// The primes of `base` that divide `n`, in the order of `base`, each with its
/// multiplicity in `n`.
pub open spec fn factorization(n: int, base: Seq<u64>) -> Seq<(u64, u8)>
    decreases base.len(),
{
    if base.len() == 0 {
        seq![]
    } else {
        let k = multiplicity(n, base[0] as int);
        emit(base[0], k, factorization(n / power(base[0] as int, k), base.skip(1)))
    }
}

/// Nothing is left to factor in 1.
proof fn lemma_factorization_of_one(base: Seq<u64>)
    requires
        forall|i: int| 0 <= i < base.len() ==> #[trigger] base[i] >= 2,
    ensures
        factorization(1, base) == Seq::<(u64, u8)>::empty(),
        unfactored(1, base) == 1,
    decreases base.len(),
{
    if base.len() > 0 {
        assert(base[0] >= 2);
        assert(1int % (base[0] as int) == 1) by (nonlinear_arith)
            requires
                base[0] >= 2,
        ;
        assert(multiplicity(1, base[0] as int) == 0);
        assert(power(base[0] as int, 0) == 1);
        assert forall|i: int| 0 <= i < base.skip(1).len() implies #[trigger] base.skip(1)[i] >= 2 by {
            assert(base.skip(1)[i] == base[i + 1]);
        }
        lemma_factorization_of_one(base.skip(1));
    }
}

/// The factorization times what is left over gives back the number.
pub proof fn lemma_factorization_value(n: int, base: Seq<u64>)
    requires
        n >= 1,
        forall|i: int| 0 <= i < base.len() ==> #[trigger] base[i] >= 2,
        n <= u64::MAX,
    ensures
        value(factorization(n, base)) * unfactored(n, base) == n,
        unfactored(n, base) >= 1,
    decreases base.len(),
{
    if base.len() > 0 {
        let p = base[0] as int;
        assert(base[0] >= 2);
        let k = multiplicity(n, p);
        lemma_multiplicity_split(n, p);
        let c = n / power(p, k);
        assert forall|i: int| 0 <= i < base.skip(1).len() implies #[trigger] base.skip(1)[i] >= 2 by {
            assert(base.skip(1)[i] == base[i + 1]);
        }
        lemma_power_positive(p, k);
        assert(c <= n) by (nonlinear_arith)
            requires
                power(p, k) * c == n,
                power(p, k) >= 1,
                c >= 1,
        ;
        lemma_factorization_value(c, base.skip(1));
        assert(power(p, k) <= n) by (nonlinear_arith)
            requires
                power(p, k) * c == n,
                power(p, k) >= 1,
                c >= 1,
        ;
        lemma_small_exponent(p, k);
        lemma_value_emit(base[0], k, factorization(c, base.skip(1)));
        let (f, u) = (value(factorization(c, base.skip(1))), unfactored(c, base.skip(1)));
        assert((power(p, k) * f) * u == power(p, k) * (f * u)) by (nonlinear_arith);
    }
}

/// `n` is positive and the primes of `base` factor it completely.
pub open spec fn certified(n: int, base: Seq<u64>) -> bool {
    n >= 1 && unfactored(n, base) == 1
}

/// The greatest common divisor of `m` and `n`, from their factorizations over `base`.
pub open spec fn gcd_value(m: int, n: int, base: Seq<u64>) -> int {
    value(merged(factorization(m, base), factorization(n, base), Combine::Min))
}

/// The least common multiple of `m` and `n`, from their factorizations over `base`.
pub open spec fn lcm_value(m: int, n: int, base: Seq<u64>) -> int {
    value(merged(factorization(m, base), factorization(n, base), Combine::Max))
}

/// The exponent-wise minimum stands for a positive integer no larger than that of `a`.
pub proof fn lemma_merged_min_bound(a: Seq<(u64, u8)>, b: Seq<(u64, u8)>)
    requires
        sorted_factors(a),
        sorted_factors(b),
    ensures
        1 <= value(merged(a, b, Combine::Min)) <= value(a),
    decreases a.len() + b.len(),
{
    let lo = Combine::Min;
    if a.len() == 0 && b.len() == 0 {
    } else if b.len() == 0 || (a.len() > 0 && a[0].0 < b[0].0) {
        lemma_sorted_skip(a);
        lemma_merged_min_bound(a.skip(1), b);
        lemma_value_emit(a[0].0, 0, merged(a.skip(1), b, lo));
        lemma_power_positive(a[0].0 as int, a[0].1 as nat);
        let (pw, v) = (power(a[0].0 as int, a[0].1 as nat), value(a.skip(1)));
        assert(v <= pw * v) by (nonlinear_arith)
            requires
                pw >= 1,
                v >= 1,
        ;
    } else if a.len() == 0 || b[0].0 < a[0].0 {
        lemma_sorted_skip(b);
        lemma_merged_min_bound(a, b.skip(1));
        lemma_value_emit(b[0].0, 0, merged(a, b.skip(1), lo));
    } else {
        lemma_sorted_skip(a);
        lemma_sorted_skip(b);
        lemma_merged_min_bound(a.skip(1), b.skip(1));
        let (p, ea, eb) = (a[0].0 as int, a[0].1 as nat, b[0].1 as nat);
        lemma_value_emit(a[0].0, combine(lo, ea, eb), merged(a.skip(1), b.skip(1), lo));
        lemma_power_monotone(p, combine(lo, ea, eb), ea);
        lemma_power_positive(p, combine(lo, ea, eb));
        let (x, y, v) = (power(p, combine(lo, ea, eb)), value(merged(a.skip(1), b.skip(1), lo)), value(a.skip(1)));
        assert(1 <= x * y <= power(p, ea) * v) by (nonlinear_arith)
            requires
                1 <= x <= power(p, ea),
                1 <= y <= v,
        ;
    }
}

/// Every prime has an exponent in `a` no larger than in `b`.
pub open spec fn divides_pointwise(a: Seq<(u64, u8)>, b: Seq<(u64, u8)>) -> bool {
    forall|p: u64| #[trigger] exponent(a, p) <= exponent(b, p)
}

/// Every prime has an exponent in `a` at least as large as in `b`.
pub open spec fn includes_pointwise(a: Seq<(u64, u8)>, b: Seq<(u64, u8)>) -> bool {
    forall|p: u64| #[trigger] exponent(b, p) <= exponent(a, p)
}

/// A factorization: each prime present maps to a positive exponent. The empty
/// factorization stands for 1.
#[derive(Debug)]
pub struct Factors {
    entries: Vec<(u64, u8)>,
}

impl View for Factors {
    type V = Seq<(u64, u8)>;

    /// The entries, sorted by prime.
    closed spec fn view(&self) -> Seq<(u64, u8)> {
        self.entries@
    }
}

impl Factors {
    #[verifier::type_invariant]
    spec fn inv(self) -> bool {
        sorted_factors(self.entries@) && prime_keyed(self.entries@)
    }

    /// Whether this is the empty factorization, the one of 1.
    pub fn is_empty(&self) -> (r: bool)
        ensures
            r == (self@.len() == 0),
    {
        self.entries.len() == 0
    }

    /// The entries, sorted by prime.
    pub fn entries(&self) -> (r: Vec<(u64, u8)>)
        ensures
            r@ == self@,
            sorted_factors(r@),
            prime_keyed(r@),
    {
        proof {
            use_type_invariant(self);
        }
        let mut r: Vec<(u64, u8)> = Vec::new();
        let mut i: usize = 0;
        while i < self.entries.len()
            invariant
                i <= self.entries@.len(),
                r@ == self.entries@.take(i as int),
            decreases self.entries@.len() - i,
        {
            r.push(self.entries[i]);
            i = i + 1;
            proof {
                assert(r@ =~= self.entries@.take(i as int));
            }
        }
        proof {
            assert(r@ =~= self.entries@);
        }
        r
    }

    /// The exponent of `k`, zero where `k` is absent.
    pub fn get(&self, k: u64) -> (r: u8)
        ensures
            r == exponent(self@, k),
    {
        let mut i: usize = 0;
        proof {
            assert(self.entries@.skip(0) =~= self.entries@);
        }
        while i < self.entries.len()
            invariant
                i <= self.entries@.len(),
                exponent(self.entries@.skip(i as int), k) == exponent(self.entries@, k),
            decreases self.entries@.len() - i,
        {
            proof {
                lemma_skip_skip(self.entries@, i as int);
            }
            if self.entries[i].0 == k {
                return self.entries[i].1;
            }
            i = i + 1;
        }
        0
    }

    /// The integer this factorization stands for. It has to fit in a `u64`.
    pub fn to_u64(&self) -> (r: u64)
        requires
            value(self@) <= u64::MAX,
        ensures
            r == value(self@),
    {
        proof {
            use_type_invariant(self);
        }
        let s = &self.entries;
        let mut r: u64 = 1;
        let mut i: usize = s.len();
        while i > 0
            invariant
                i <= s@.len(),
                s@ == self@,
                sorted_factors(s@),
                value(s@) <= u64::MAX,
                r == value(s@.skip(i as int)),
            decreases i,
        {
            i = i - 1;
            proof {
                lemma_value_suffix(s@, i as int);
            }
            let pw = pow_u64(s[i].0, s[i].1);
            proof {
                assert(pw * r == value(s@.skip(i as int)));
            }
            r = pw * r;
        }
        proof {
            assert(s@.skip(0) =~= s@);
        }
        r
    }

    /// The product: exponents add up prime by prime. For each prime present in both,
    /// the sum must fit in a `u8`.
    pub fn mul(&self, rhs: &Self) -> (r: Self)
        requires
            sums_fit(self@, rhs@),
        ensures
            r@ == merged(self@, rhs@, Combine::Sum),
            sorted_factors(r@),
            prime_keyed(r@),
            forall|p: u64| #[trigger] exponent(r@, p) == exponent(self@, p) + exponent(rhs@, p),
            value(r@) == value(self@) * value(rhs@),
    {
        proof {
            use_type_invariant(self);
            use_type_invariant(rhs);
            lemma_merged_sum_value(self@, rhs@);
            assert forall|p: u64| #[trigger] exponent(merged(self@, rhs@, Combine::Sum), p) == exponent(self@, p)
                + exponent(rhs@, p) by {
                lemma_merged_exponent(self@, rhs@, Combine::Sum, p);
            }
        }
        Factors { entries: merge(&self.entries, &rhs.entries, Combine::Sum) }
    }

    /// The factorization of the least common multiple: the larger exponent of each prime.
    pub fn union(&self, b: &Factors) -> (r: Factors)
        ensures
            r@ == merged(self@, b@, Combine::Max),
            sorted_factors(r@),
            prime_keyed(r@),
            forall|p: u64| #[trigger] exponent(r@, p) == if exponent(self@, p) >= exponent(b@, p) { exponent(self@, p) } else { exponent(b@, p) },
    {
        proof {
            use_type_invariant(self);
            use_type_invariant(b);
            assert forall|p: u64| #[trigger] exponent(merged(self@, b@, Combine::Max), p) == combine(
                Combine::Max,
                exponent(self@, p),
                exponent(b@, p),
            ) by {
                lemma_merged_exponent(self@, b@, Combine::Max, p);
            }
        }
        Factors { entries: merge(&self.entries, &b.entries, Combine::Max) }
    }

    /// The factorization of the greatest common divisor: the smaller exponent of each
    /// prime present in both.
    pub fn intersection(&self, b: &Factors) -> (r: Factors)
        ensures
            r@ == merged(self@, b@, Combine::Min),
            sorted_factors(r@),
            prime_keyed(r@),
            forall|p: u64| #[trigger] exponent(r@, p) == if exponent(self@, p) <= exponent(b@, p) { exponent(self@, p) } else { exponent(b@, p) },
    {
        proof {
            use_type_invariant(self);
            use_type_invariant(b);
            assert forall|p: u64| #[trigger] exponent(merged(self@, b@, Combine::Min), p) == combine(
                Combine::Min,
                exponent(self@, p),
                exponent(b@, p),
            ) by {
                lemma_merged_exponent(self@, b@, Combine::Min, p);
            }
        }
        Factors { entries: merge(&self.entries, &b.entries, Combine::Min) }
    }

    /// Euler's totient of the integer, zero for the empty factorization. The integer
    /// must fit in a `u64`.
    pub fn totient(&self) -> (r: u64)
        requires
            value(self@) <= u64::MAX,
        ensures
            r == totient_of(self@),
            self@.len() == 0 ==> r == 0,
    {
        proof {
            use_type_invariant(self);
        }
        if self.is_empty() {
            return 0;
        }
        let s = &self.entries;
        let mut t: u64 = 1;
        let mut i: usize = s.len();
        while i > 0
            invariant
                i <= s@.len(),
                s@ == self@,
                sorted_factors(s@),
                value(s@) <= u64::MAX,
                t == phi_product(s@.skip(i as int)),
            decreases i,
        {
            i = i - 1;
            proof {
                lemma_value_suffix(s@, i as int);
                lemma_sorted_suffix(s@, i as int);
                lemma_phi_le_value(s@.skip(i as int));
                lemma_skip_skip(s@, i as int);
                lemma_power_monotone(s@[i as int].0 as int, (s@[i as int].1 - 1) as nat, s@[i as int].1 as nat);
            }
            let (p, e) = s[i];
            let d = pow_u64(p, e) - pow_u64(p, e - 1);
            t = d * t;
        }
        proof {
            assert(s@.skip(0) =~= s@);
        }
        t
    }

    /// The number of divisors: the product of `e + 1`. It must fit in a `u64`.
    pub fn divisor_count(&self) -> (r: u64)
        requires
            divisor_product(self@) <= u64::MAX,
        ensures
            r == divisor_product(self@),
    {
        proof {
            use_type_invariant(self);
        }
        let s = &self.entries;
        let mut d: u64 = 1;
        let mut i: usize = s.len();
        while i > 0
            invariant
                i <= s@.len(),
                s@ == self@,
                sorted_factors(s@),
                divisor_product(s@) <= u64::MAX,
                d == divisor_product(s@.skip(i as int)),
            decreases i,
        {
            i = i - 1;
            proof {
                lemma_divisor_suffix(s@, i as int);
                lemma_skip_skip(s@, i as int);
            }
            d = (s[i].1 as u64 + 1) * d;
        }
        proof {
            assert(s@.skip(0) =~= s@);
        }
        d
    }

    /// Whether every prime has an exponent here no larger than in `other`; that is,
    /// whether this integer divides the other.
    pub fn is_subset(&self, other: &Self) -> (r: bool)
        ensures
            r == divides_pointwise(self@, other@),
    {
        proof {
            use_type_invariant(self);
        }
        let mut i: usize = 0;
        while i < self.entries.len()
            invariant
                i <= self.entries@.len(),
                sorted_factors(self.entries@),
                forall|k: int|
                    0 <= k < i ==> #[trigger] self.entries@[k].1 <= exponent(other@, self.entries@[k].0),
            decreases self.entries@.len() - i,
        {
            let (p, e) = self.entries[i];
            if other.get(p) < e {
                proof {
                    lemma_exponent_at(self.entries@, i as int);
                }
                return false;
            }
            i = i + 1;
        }
        proof {
            assert forall|p: u64| #[trigger] exponent(self@, p) <= exponent(other@, p) by {
                if exponent(self@, p) > 0 {
                    let k = lemma_exponent_present(self@, p);
                    assert(self.entries@[k].1 <= exponent(other@, self.entries@[k].0));
                }
            }
        }
        true
    }

    /// Whether `other` is a subset of this factorization.
    pub fn is_superset(&self, other: &Self) -> (r: bool)
        ensures
            r == includes_pointwise(self@, other@),
    {
        other.is_subset(self)
    }

    /// The factorization of `n` over the primes of `base`. There is none for 0. For
    /// any other `n` there is one exactly when dividing out the primes of `base` leaves
    /// 1; otherwise what is left might be a prime beyond the base, or a product of such
    /// primes, and the answer is unknown.
    pub fn of(n: u64, base: &Primes) -> (r: Option<Self>)
        ensures
            n == 0 ==> r is None,
            n == 1 ==> r is Some && r->0@.len() == 0,
            n >= 1 ==> (r is Some <==> unfactored(n as int, base@) == 1),
            r is Some ==> r->0@ == factorization(n as int, base@),
            r is Some ==> value(r->0@) == n,
            r is Some ==> sorted_factors(r->0@) && prime_keyed(r->0@),
    {
        let ghost b = base@;
        let primes = base.as_vec();
        proof {
            assert forall|i: int| 0 <= i < b.len() implies #[trigger] b[i] >= 2 by {
                assert(is_prime(b[i] as int));
            }
            lemma_factorization_of_one(b);
        }
        if n == 0 {
            return None;
        }
        let mut entries: Vec<(u64, u8)> = Vec::new();
        if n == 1 {
            return Some(Factors { entries });
        }
        proof {
            lemma_factorization_value(n as int, b);
            assert(b.skip(0) =~= b);
            assert(entries@ + factorization(n as int, b) =~= factorization(n as int, b));
        }
        let mut rest: u64 = n;
        let mut i: usize = 0;
        while i < primes.len()
            invariant
                primes@ == b,
                b == base@,
                first_primes(b),
                forall|j: int| 0 <= j < b.len() ==> #[trigger] b[j] >= 2,
                i <= b.len(),
                1 <= rest <= n,
                n >= 2,
                entries@ + factorization(rest as int, b.skip(i as int)) == factorization(n as int, b),
                unfactored(rest as int, b.skip(i as int)) == unfactored(n as int, b),
                sorted_factors(entries@),
                prime_keyed(entries@),
                entries@.len() > 0 && i < b.len() ==> entries@.last().0 < b[i as int],
                forall|j: int| 0 <= j < i ==> (rest as int) % (#[trigger] b[j] as int) != 0,
                i == 0 ==> rest == n,
                i > 0 ==> b[i - 1] <= rest,
            decreases b.len() - i,
        {
            let p = primes[i];
            let ghost start = rest;
            let mut k: u8 = 0;
            proof {
                assert(b[i as int] >= 2);
                lemma_power_positive(p as int, 0);
            }
            while rest % p == 0
                invariant
                    p >= 2,
                    rest >= 1,
                    rest * power(p as int, k as nat) == start,
                    multiplicity(start as int, p as int) == k + multiplicity(rest as int, p as int),
                    start <= u64::MAX,
                decreases rest,
            {
                proof {
                    lemma_multiplicity_step(rest as int, p as int);
                    lemma_div_smaller(rest as int, p as int);
                    let c = rest as int / p as int;
                    assert(rest == p * c) by (nonlinear_arith)
                        requires
                            p >= 2,
                            rest % p == 0,
                            c == rest / p,
                    ;
                    assert(c >= 1) by (nonlinear_arith)
                        requires
                            rest == p * c,
                            rest >= 1,
                    ;
                    assert(power(p as int, (k + 1) as nat) == p * power(p as int, k as nat));
                    assert(c * power(p as int, (k + 1) as nat) == start) by (nonlinear_arith)
                        requires
                            power(p as int, (k + 1) as nat) == p * power(p as int, k as nat),
                            rest == p * c,
                            rest * power(p as int, k as nat) == start,
                    ;
                    lemma_power_positive(p as int, (k + 1) as nat);
                    assert(power(p as int, (k + 1) as nat) <= start) by (nonlinear_arith)
                        requires
                            c * power(p as int, (k + 1) as nat) == start,
                            c >= 1,
                            power(p as int, (k + 1) as nat) >= 1,
                    ;
                    lemma_small_exponent(p as int, (k + 1) as nat);
                }
                rest = rest / p;
                k = k + 1;
            }
            proof {
                let kk = k as nat;
                assert(multiplicity(rest as int, p as int) == 0);
                lemma_power_positive(p as int, kk);
                assert(power(p as int, kk) * (rest as int) == start) by (nonlinear_arith)
                    requires
                        rest * power(p as int, kk) == start,
                ;
                lemma_div_exact(start as int, power(p as int, kk), rest as int);
                lemma_skip_skip_u64(b, i as int);
                // what is left still has no divisor among the earlier primes
                assert(start % rest == 0) by (nonlinear_arith)
                    requires
                        power(p as int, kk) * (rest as int) == start,
                        rest >= 1,
                ;
                assert forall|j: int| 0 <= j <= i implies (rest as int) % (#[trigger] b[j] as int) != 0 by {
                    if j < i && (rest as int) % (b[j] as int) == 0 {
                        lemma_divides_trans(b[j] as int, rest as int, start as int);
                    }
                }
                assert(rest <= start) by (nonlinear_arith)
                    requires
                        power(p as int, kk) * (rest as int) == start,
                        power(p as int, kk) >= 1,
                        rest >= 1,
                ;
            }
            let ghost before = entries@;
            if k > 0 {
                entries.push((p, k));
                proof {
                    assert(is_prime(b[i as int] as int));
                    lemma_emit_append(before, p, k as nat, factorization(rest as int, b.skip(i + 1)));
                }
            }
            proof {
                if i + 1 < b.len() {
                    assert(b[i as int] < b[i + 1]);
                }
                assert(multiplicity(start as int, p as int) == k as nat);
                assert(factorization(start as int, b.skip(i as int)) == emit(
                    p,
                    k as nat,
                    factorization(rest as int, b.skip(i + 1)),
                ));
                assert(unfactored(start as int, b.skip(i as int)) == unfactored(rest as int, b.skip(i + 1)));
                assert(entries@ + factorization(rest as int, b.skip(i + 1)) == factorization(n as int, b));
            }
            if p > rest {
                proof {
                    // a leftover above 1 would have a prime factor below `p`, hence among
                    // the primes already divided out
                    if rest >= 2 {
                        let q = lemma_prime_factor(rest as int);
                        assert(q <= b.last()) by {
                            assert(b[i as int] <= b.last());
                        }
                        assert(is_prime(q));
                        assert(b.contains(q as u64));
                        let j = choose|j: int| 0 <= j < b.len() && b[j] == q as u64;
                        if j > i {
                            assert(b[i as int] < b[j]);
                        }
                        assert((rest as int) % (b[j] as int) != 0);
                    }
                    assert forall|j: int| 0 <= j < b.skip(i + 1).len() implies #[trigger] b.skip(i + 1)[j] >= 2 by {
                        assert(b.skip(i + 1)[j] == b[i + 1 + j]);
                    }
                    lemma_factorization_of_one(b.skip(i + 1));
                    assert(entries@ + Seq::<(u64, u8)>::empty() =~= entries@);
                    lemma_factorization_value(n as int, b);
                }
                return Some(Factors { entries });
            }
            i = i + 1;
        }
        proof {
            assert(b.skip(i as int).len() == 0);
            if b.len() > 0 {
                assert(b[b.len() - 1] >= 2);
            }
        }
        None
    }
}

/// Whether two entry lists are equal.
fn same_entries(a: &Vec<(u64, u8)>, b: &Vec<(u64, u8)>) -> (r: bool)
    ensures
        r == (a@ == b@),
{
    if a.len() != b.len() {
        return false;
    }
    let mut i: usize = 0;
    while i < a.len()
        invariant
            i <= a@.len(),
            a@.len() == b@.len(),
            forall|k: int| 0 <= k < i ==> a@[k] == b@[k],
        decreases a@.len() - i,
    {
        if a[i].0 != b[i].0 || a[i].1 != b[i].1 {
            return false;
        }
        i = i + 1;
    }
    assert(a@ =~= b@);
    true
}

impl PartialEq for Factors {
    fn eq(&self, o: &Factors) -> (r: bool) {
        same_entries(&self.entries, &o.entries)
    }
}

impl vstd::std_specs::cmp::PartialEqSpecImpl for Factors {
    open spec fn obeys_eq_spec() -> bool {
        true
    }

    open spec fn eq_spec(&self, o: &Factors) -> bool {
        self@ == o@
    }
}

} // verus!