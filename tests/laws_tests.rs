use primes::{Factors, Primes};

#[test]
fn round_trip_small_numbers() {
    let p = Primes::under(1000);
    let mut n: u64 = 2;
    while n < 1000 {
        let f = Factors::of(n, &p).unwrap();
        assert_eq!(f.to_u64(), n);
        n += 1;
    }
}

#[test]
fn round_trip_prime_at_the_edge_of_the_base() {
    let p = Primes::under(98);
    assert_eq!(Factors::of(97, &p).unwrap().entries(), vec![(97u64, 1u8)]);
    assert_eq!(Factors::of(97 * 97, &p).unwrap().to_u64(), 9409);
}

#[test]
fn round_trip_largest_power_of_two() {
    let p = Primes::under(3);
    let f = Factors::of(1u64 << 63, &p).unwrap();
    assert_eq!(f.entries(), vec![(2u64, 63u8)]);
    assert_eq!(f.get(2), 63);
}

#[test]
fn one_is_empty_for_any_base() {
    assert!(Factors::of(1, &Primes::under(0)).unwrap().is_empty());
    assert!(Factors::of(1, &Primes::under(50)).unwrap().is_empty());
}

#[test]
fn zero_has_no_factorization() {
    assert!(Factors::of(0, &Primes::under(0)).is_none());
    assert!(Factors::of(0, &Primes::first_n(20)).is_none());
}

#[test]
fn uncertified_numbers_have_no_factorization() {
    let p = Primes::under(12);
    assert!(Factors::of(23, &p).is_none());
    assert!(Factors::of(13 * 13, &p).is_none());
    assert!(Factors::of(2, &Primes::under(0)).is_none());
    // 121 = 11 * 11 is certified once 11 is divided out
    assert_eq!(Factors::of(121, &p).unwrap().entries(), vec![(11u64, 2u8)]);
}

#[test]
fn gcd_times_lcm_is_product() {
    let p = Primes::under(100);
    let pairs: Vec<(u64, u64)> = vec![(12, 18), (30, 24), (7, 49), (64, 81), (360, 84)];
    for (m, n) in pairs {
        let g = p.gcd(m, n).unwrap();
        let l = p.lcm(m, n).unwrap();
        assert_eq!(g * l, m * n);
    }
}

#[test]
fn subset_matches_divisibility() {
    let p = Primes::under(30);
    let f6 = Factors::of(6, &p).unwrap();
    let f12 = Factors::of(12, &p).unwrap();
    let f10 = Factors::of(10, &p).unwrap();
    let one = Factors::of(1, &p).unwrap();
    assert!(f6.is_subset(&f12));
    assert!(!f12.is_subset(&f6));
    assert!(!f10.is_subset(&f12));
    assert!(f6.is_subset(&f6));
    assert!(one.is_subset(&f10));
    assert!(f12.is_superset(&f6));
    assert!(!f6.is_superset(&f12));
    assert_eq!(f10.is_superset(&f12), f12.is_subset(&f10));
}

#[test]
fn divisor_count_cases() {
    let p = Primes::under(30);
    assert_eq!(Factors::of(1, &p).unwrap().divisor_count(), 1);
    assert_eq!(Factors::of(32, &p).unwrap().divisor_count(), 6);
    assert_eq!(Factors::of(7, &p).unwrap().divisor_count(), 2);
}

#[test]
fn totient_of_one_is_zero() {
    let p = Primes::under(30);
    assert_eq!(Factors::of(1, &p).unwrap().totient(), 0);
    assert_eq!(Factors::of(7, &p).unwrap().totient(), 6);
    assert_eq!(Factors::of(9, &p).unwrap().totient(), 6);
}

#[test]
fn scenario_bases_agree() {
    let want = Primes::from_raw_vec(vec![2, 3, 5, 7, 11]);
    assert_eq!(Primes::under(12), want);
    assert_eq!(Primes::first_n(5), want);
}

#[test]
fn scenario_factorize_24() {
    let p = Primes::under(20);
    let f = Factors::of(24, &p).unwrap();
    assert_eq!(f.get(2), 3);
    assert_eq!(f.get(3), 1);
    assert_eq!(f.get(5), 0);
}

#[test]
fn scenario_gcd_and_lcm() {
    let p = Primes::under(12);
    assert_eq!(p.gcd(30, 24), Some(6));
    assert_eq!(p.lcm(6, 10), Some(30));
    assert_eq!(p.gcd(23, 2), None);
    assert_eq!(p.gcd(0, 8), None);
    assert_eq!(p.gcd(1, 90000), Some(1));
    assert_eq!(p.lcm(0, 0), Some(0));
    assert_eq!(p.lcm(0, 5), None);
    assert_eq!(p.lcm(5, 0), None);
    assert_eq!(p.lcm(23, 5), None);
    assert_eq!(p.lcm(7, 1), Some(7));
}

#[test]
fn scenario_sixty_over_twenty_primes() {
    let p = Primes::first_n(20);
    let f = Factors::of(60, &p).unwrap();
    assert_eq!(f.totient(), 16);
    assert_eq!(f.divisor_count(), 12);
}

#[test]
fn bases_at_small_bounds() {
    assert_eq!(Primes::under(0).max(), None);
    assert_eq!(Primes::under(2).max(), None);
    assert_eq!(Primes::under(3).max(), Some(2));
    assert_eq!(Primes::under(4).max(), Some(3));
    assert_eq!(Primes::first_n(0).max(), None);
    assert_eq!(Primes::first_n(1).max(), Some(2));
    assert_eq!(Primes::first_n(20).max(), Some(71));
    assert_eq!(Primes::under(100).as_vec().len(), 25);
}

#[test]
fn union_and_intersection() {
    let p = Primes::under(30);
    let a = Factors::of(2 * 2 * 3 * 7, &p).unwrap();
    let b = Factors::of(2 * 3 * 3 * 5, &p).unwrap();
    assert_eq!(a.union(&b).entries(), vec![(2u64, 2u8), (3, 2), (5, 1), (7, 1)]);
    assert_eq!(a.intersection(&b).entries(), vec![(2u64, 1u8), (3, 1)]);
    assert_eq!(a.mul(&b).to_u64(), 84 * 90);
    let c = Factors::of(5 * 7, &p).unwrap();
    let d = Factors::of(2 * 3, &p).unwrap();
    assert!(c.intersection(&d).is_empty());
}
