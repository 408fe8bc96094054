//! Prime bases: the first primes, without gaps, found by trial division.
use crate::arith::{is_prime, lemma_divides_trans, lemma_prime_factor};
use crate::factors::{certified, gcd_value, lcm_value, lemma_merged_min_bound, Factors};
use vstd::prelude::*;

verus! {

/// `s` lists, in increasing order, every prime up to its last element and nothing else.
pub open spec fn first_primes(s: Seq<u64>) -> bool {
    &&& forall|i: int, j: int| 0 <= i < j < s.len() ==> s[i] < s[j]
    &&& forall|i: int| 0 <= i < s.len() ==> is_prime(#[trigger] s[i] as int)
    &&& forall|q: int|
        #![trigger is_prime(q)]
        s.len() > 0 && is_prime(q) && q <= s.last() ==> s.contains(q as u64)
}

/// A gap-free prefix of the prime numbers: `[]`, `[2, 3, 5]` or `[2, 3, 5, 7, 11]`,
/// never `[2, 5, 11]`.
#[derive(Debug)]
pub struct Primes {
    primes: Vec<u64>,
}

impl View for Primes {
    type V = Seq<u64>;

    closed spec fn view(&self) -> Seq<u64> {
        self.primes@
    }
}

/// Whether some element of `divisors` divides `m`.
fn has_divisor_in(divisors: &Vec<u64>, m: u64) -> (r: bool)
    requires
        forall|i: int| 0 <= i < divisors.len() ==> #[trigger] divisors[i] >= 2,
    ensures
        r == exists|i: int| 0 <= i < divisors.len() && m % #[trigger] divisors[i] == 0,
{
    let mut i: usize = 0;
    while i < divisors.len()
        invariant
            i <= divisors.len(),
            forall|k: int| 0 <= k < divisors.len() ==> #[trigger] divisors[k] >= 2,
            forall|k: int| 0 <= k < i ==> m % #[trigger] divisors[k] != 0,
        decreases divisors.len() - i,
    {
        if m % divisors[i] == 0 {
            return true;
        }
        i = i + 1;
    }
    false
}

/// An odd candidate `m` is prime exactly when no prime below it divides it.
proof fn lemma_trial_division(primes: Seq<u64>, m: int)
    requires
        first_primes(primes),
        3 <= m <= u64::MAX,
        primes.len() > 0,
        primes.last() < m,
        forall|q: int| #![trigger is_prime(q)] is_prime(q) && q < m ==> primes.contains(q as u64),
    ensures
        is_prime(m) == !exists|i: int| 0 <= i < primes.len() && m % #[trigger] primes[i] as int == 0,
{
    if exists|i: int| 0 <= i < primes.len() && m % #[trigger] primes[i] as int == 0 {
        let i = choose|i: int| 0 <= i < primes.len() && m % #[trigger] primes[i] as int == 0;
        assert(primes[i] <= primes.last());
        assert(2 <= primes[i] as int) by {
            assert(is_prime(primes[i] as int));
        }
        assert(!is_prime(m));
    } else if !is_prime(m) {
        let d = choose|d: int| 2 <= d < m && #[trigger] (m % d) == 0;
        let q = lemma_prime_factor(d);
        lemma_divides_trans(q, d, m);
        assert(primes.contains(q as u64));
        let k = choose|k: int| 0 <= k < primes.len() && primes[k] == q as u64;
        assert(m % primes[k] as int == 0);
    }
}

/// After an odd candidate `m`, the even number `m + 1` is not prime.
proof fn lemma_even_not_prime(m: int)
    requires
        m >= 3,
        m % 2 == 1,
    ensures
        !is_prime(m + 1),
{
    assert((m + 1) % 2 == 0);
}

impl Primes {
    /// Every base is a gap-free prefix of the primes.
    #[verifier::type_invariant]
    spec fn inv(self) -> bool {
        first_primes(self.primes@)
    }

    /// The primes, in increasing order.
    pub fn as_vec(&self) -> (r: &Vec<u64>)
        ensures
            r@ == self@,
            first_primes(r@),
    {
        proof {
            use_type_invariant(self);
        }
        &self.primes
    }

    /// The largest prime in the base, if there is one.
    pub fn max(&self) -> (r: Option<u64>)
        ensures
            r == (if self@.len() == 0 {
                None
            } else {
                Some(self@.last())
            }),
    {
        if self.primes.len() == 0 {
            None
        } else {
            Some(self.primes[self.primes.len() - 1])
        }
    }

    /// All primes strictly below `limit`, in increasing order.
    pub fn under(limit: u64) -> (r: Self)
        ensures
            first_primes(r@),
            forall|i: int| 0 <= i < r@.len() ==> #[trigger] r@[i] < limit,
            forall|q: int| #![trigger is_prime(q)] is_prime(q) && q < limit ==> r@.contains(q as u64),
    {
        let mut primes: Vec<u64> = Vec::new();
        if limit <= 2 {
            return Primes { primes };
        }
        primes.push(2);
        let mut n: u64 = 3;
        assert(is_prime(2));
        assert(primes@[0] == 2);
        while n < limit
            invariant
                3 <= n <= limit + 1,
                n % 2 == 1,
                3 <= limit,
                first_primes(primes@),
                primes@.len() > 0,
                primes@.last() < n,
                forall|i: int| 0 <= i < primes@.len() ==> #[trigger] primes@[i] < limit,
                forall|q: int| #![trigger is_prime(q)] is_prime(q) && q < n ==> primes@.contains(q as u64),
            decreases limit + 1 - n,
        {
            proof {
                lemma_trial_division(primes@, n as int);
                lemma_even_not_prime(n as int);
                assert forall|i: int| 0 <= i < primes@.len() implies #[trigger] primes@[i] >= 2 by {
                    assert(is_prime(primes@[i] as int));
                }
            }
            let found = has_divisor_in(&primes, n);
            if !found {
                let ghost before = primes@;
                primes.push(n);
                proof {
                    assert forall|q: int| #![trigger is_prime(q)] is_prime(q) && q < n + 2 implies primes@.contains(q as u64) by {
                        if q < n {
                            let k = choose|k: int| 0 <= k < before.len() && before[k] == q as u64;
                            assert(primes@[k] == q as u64);
                        } else {
                            assert(primes@[before.len() as int] == n);
                        }
                    }
                    assert forall|q: int| #![trigger is_prime(q)] primes@.len() > 0 && is_prime(q) && q <= primes@.last() implies primes@.contains(q as u64) by {
                        if q < n {
                            let k = choose|k: int| 0 <= k < before.len() && before[k] == q as u64;
                            assert(primes@[k] == q as u64);
                        } else {
                            assert(primes@[before.len() as int] == n);
                        }
                    }
                }
            }
            n = n + 2;
        }
        Primes { primes }
    }

    /// The `size` smallest primes, in increasing order. Every one of them has to fit in
    /// a `u64`.
    pub fn first_n(size: usize) -> (r: Self)
        requires
            exists|s: Seq<u64>| first_primes(s) && s.len() == size,
        ensures
            first_primes(r@),
            r@.len() == size,
    {
        let mut primes: Vec<u64> = Vec::new();
        if size == 0 {
            return Primes { primes };
        }
        let ghost goal = choose|s: Seq<u64>| first_primes(s) && s.len() == size;
        proof {
            lemma_top_of_u64(goal.last() as int);
            assert(is_prime(2));
            assert(goal.contains(2));
            assert(goal[0] == 2) by {
                let k = choose|k: int| 0 <= k < goal.len() && goal[k] == 2;
                if k > 0 {
                    assert(is_prime(goal[0] as int));
                    assert(goal[0] < goal[k]);
                }
            }
        }
        primes.push(2);
        let mut m: u64 = 3;
        assert(primes@ =~= goal.take(1));
        while primes.len() < size
            invariant
                1 <= primes@.len() <= size,
                3 <= m,
                m % 2 == 1,
                first_primes(goal),
                goal.len() == size,
                goal.last() + 2 <= u64::MAX,
                primes@ == goal.take(primes@.len() as int),
                first_primes(primes@),
                primes@.last() < m,
                m <= goal.last() + 2,
                forall|q: int| #![trigger is_prime(q)] is_prime(q) && q < m ==> primes@.contains(q as u64),
            decreases goal.last() + 2 - m,
        {
            let ghost len = primes@.len() as int;
            proof {
                // the next prime of the goal is not below the candidate
                assert(primes@[len - 1] == goal[len - 1]);
                assert(is_prime(goal[len] as int));
                if goal[len] < m {
                    let k = choose|k: int| 0 <= k < len && primes@[k] == goal[len];
                    assert(goal[k] == goal[len]);
                }
                assert(goal[len] <= goal.last());
                lemma_trial_division(primes@, m as int);
                lemma_even_not_prime(m as int);
                assert forall|i: int| 0 <= i < primes@.len() implies #[trigger] primes@[i] >= 2 by {
                    assert(is_prime(primes@[i] as int));
                }
            }
            let found = has_divisor_in(&primes, m);
            if !found {
                let ghost before = primes@;
                primes.push(m);
                proof {
                    // the candidate is the next prime of the goal
                    assert(goal.contains(m));
                    let k = choose|k: int| 0 <= k < goal.len() && goal[k] == m;
                    if k < len {
                        assert(goal[k] == before[k]);
                    }
                    if k > len {
                        assert(goal[len] < goal[k]);
                    }
                    assert(primes@ =~= goal.take(len + 1));
                    assert forall|q: int| #![trigger is_prime(q)] is_prime(q) && q < m + 2 implies primes@.contains(q as u64) by {
                        if q < m {
                            let j = choose|j: int| 0 <= j < before.len() && before[j] == q as u64;
                            assert(primes@[j] == q as u64);
                        } else {
                            assert(primes@[len] == m);
                        }
                    }
                    assert forall|q: int| #![trigger is_prime(q)] primes@.len() > 0 && is_prime(q) && q <= primes@.last() implies primes@.contains(q as u64) by {
                        if q < m {
                            let j = choose|j: int| 0 <= j < before.len() && before[j] == q as u64;
                            assert(primes@[j] == q as u64);
                        } else {
                            assert(primes@[len] == m);
                        }
                    }
                }
            }
            m = m + 2;
        }
        proof {
            assert(primes@ =~= goal.take(size as int));
        }
        Primes { primes }
    }

    /// The greatest common divisor of `m` and `n`. There is none when either is 0, and
    /// none when the base cannot factor both; it is 1 when either is 1.
    pub fn gcd(&self, m: u64, n: u64) -> (r: Option<u64>)
        ensures
            m == 0 || n == 0 ==> r is None,
            m != 0 && n != 0 && (m == 1 || n == 1) ==> r == Some(1u64),
            m >= 2 && n >= 2 ==> r == (if certified(m as int, self@) && certified(n as int, self@) {
                Some(gcd_value(m as int, n as int, self@) as u64)
            } else {
                None
            }),
    {
        if m == 0 || n == 0 {
            return None;
        }
        if m == 1 || n == 1 {
            return Some(1);
        }
        let fm = match Factors::of(m, self) {
            Some(f) => f,
            None => return None,
        };
        let fn_ = match Factors::of(n, self) {
            Some(f) => f,
            None => return None,
        };
        let g = fm.intersection(&fn_);
        proof {
            lemma_merged_min_bound(fm@, fn_@);
        }
        Some(g.to_u64())
    }

    /// The least common multiple of `m` and `n`: 0 when both are 0, none when only one
    /// is, the other operand when one is 1, and none when the base cannot factor both.
    /// The result has to fit in a `u64`.
    pub fn lcm(&self, m: u64, n: u64) -> (r: Option<u64>)
        requires
            m >= 2 && n >= 2 && certified(m as int, self@) && certified(n as int, self@) ==> lcm_value(
                m as int,
                n as int,
                self@,
            ) <= u64::MAX,
        ensures
            m == 0 && n == 0 ==> r == Some(0u64),
            (m == 0) != (n == 0) ==> r is None,
            m != 0 && n == 1 ==> r == Some(m),
            m == 1 && n != 0 ==> r == Some(n),
            m >= 2 && n >= 2 ==> r == (if certified(m as int, self@) && certified(n as int, self@) {
                Some(lcm_value(m as int, n as int, self@) as u64)
            } else {
                None
            }),
    {
        if m == 0 && n == 0 {
            return Some(0);
        }
        if m == 0 || n == 0 {
            return None;
        }
        if n == 1 {
            return Some(m);
        }
        if m == 1 {
            return Some(n);
        }
        let fm = match Factors::of(m, self) {
            Some(f) => f,
            None => return None,
        };
        let fn_ = match Factors::of(n, self) {
            Some(f) => f,
            None => return None,
        };
        let l = fm.union(&fn_);
        Some(l.to_u64())
    }

    /// Wraps `v` as a prime base without checking it at run time. Verified callers
    /// still have to show that `v` is a gap-free prefix of the primes; unverified
    /// callers take that on themselves.
    pub fn from_raw_vec(v: Vec<u64>) -> (r: Self)
        requires
            first_primes(v@),
        ensures
            r@ == v@,
    {
        Primes { primes: v }
    }
}

/// The two largest `u64` values are not prime: `u64::MAX` is a multiple of 3 and the
/// one below it is even.
proof fn lemma_top_of_u64(p: int)
    requires
        is_prime(p),
        p <= u64::MAX,
    ensures
        p + 2 <= u64::MAX,
{
    assert(u64::MAX % 3 == 0);
    assert((u64::MAX - 1) % 2 == 0);
}

/// Whether two prime lists are equal.
fn same_primes(a: &Vec<u64>, b: &Vec<u64>) -> (r: bool)
    ensures
        r == (a@ == b@),
{
    if a.len() != b.len() {
        return false;
    }
    let mut i: usize = 0;
    while i < a.len()
        invariant
            i <= a@.len(),
            a@.len() == b@.len(),
            forall|k: int| 0 <= k < i ==> a@[k] == b@[k],
        decreases a@.len() - i,
    {
        if a[i] != b[i] {
            return false;
        }
        i = i + 1;
    }
    assert(a@ =~= b@);
    true
}

impl PartialEq for Primes {
    fn eq(&self, o: &Primes) -> (r: bool) {
        same_primes(&self.primes, &o.primes)
    }
}

impl vstd::std_specs::cmp::PartialEqSpecImpl for Primes {
    open spec fn obeys_eq_spec() -> bool {
        true
    }

    open spec fn eq_spec(&self, o: &Primes) -> bool {
        self@ == o@
    }
}

} // verus!