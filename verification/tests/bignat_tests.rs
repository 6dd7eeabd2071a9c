use quanjp::bignat::BigNat;
use quanjp::primality::{
    is_prime_miller_rabin, mod_pow, mr_witness_passes, random_between, two_exponent_fits_u32,
};
use quanjp::token::to_decimal_string;

fn big(limbs: Vec<u32>) -> BigNat {
    BigNat::from_limbs(limbs)
}

#[test]
fn limbs_are_trimmed() {
    let n = big(vec![5, 0, 0]);
    assert_eq!(n.limbs(), &[5u32]);
    assert_eq!(BigNat::zero().limbs(), &[] as &[u32]);
    assert_eq!(BigNat::from_u32(0).limbs(), &[] as &[u32]);
}

#[test]
fn arithmetic_on_limbs() {
    let n = big(vec![0xffff_ffff, 0xffff_ffff]);
    let m = n.add_u32(1);
    assert_eq!(m.limbs(), &[0u32, 0, 1]);
    assert_eq!(m.sub_u32(1).limbs(), &[0xffff_ffffu32, 0xffff_ffff]);
    assert_eq!(m.shr1().limbs(), &[0u32, 0x8000_0000]);
    assert_eq!(n.mul_add_u32(4, 3).limbs(), &[0xffff_ffffu32, 0xffff_ffff, 3]);
    assert!(m.is_even());
    assert!(!n.is_even());
    assert!(BigNat::zero().is_even());
}

#[test]
fn comparison() {
    let a = big(vec![1, 2]);
    let b = big(vec![2, 1]);
    assert_eq!(a.compare(&b), 1);
    assert_eq!(b.compare(&a), -1);
    assert_eq!(a.compare(&big(vec![1, 2])), 0);
    assert_eq!(BigNat::from_u32(7).compare(&a), -1);
}

#[test]
fn modular_power() {
    let r = mod_pow(&BigNat::from_u32(3), &BigNat::from_u32(200), &BigNat::from_u32(1000));
    assert_eq!(to_decimal_string(&r), "1");
    let r = mod_pow(&BigNat::from_u32(2), &BigNat::from_u32(10), &BigNat::from_u32(1000));
    assert_eq!(to_decimal_string(&r), "24");
    let r = mod_pow(&BigNat::from_u32(5), &BigNat::zero(), &BigNat::from_u32(1));
    assert_eq!(to_decimal_string(&r), "0");
}

#[test]
fn random_witness_in_range() {
    let mut rng = rand::thread_rng();
    let low = BigNat::from_u32(2);
    let high = BigNat::from_u32(10);
    for _ in 0..50 {
        let r = random_between(&low, &high, &mut rng);
        assert!(r.compare(&low) >= 0 && r.compare(&high) < 0);
    }
}

#[test]
fn witness_check_on_small_numbers() {
    // n = 13, n - 1 = 3 * 2^2
    let n = BigNat::from_u32(13);
    let nm1 = BigNat::from_u32(12);
    let d = BigNat::from_u32(3);
    for a in 1..13 {
        assert!(mr_witness_passes(&BigNat::from_u32(a), &d, 2, &n, &nm1));
    }
    // n = 561 = 3 * 11 * 17, n - 1 = 35 * 2^4; base 2 exposes it
    let n = BigNat::from_u32(561);
    let nm1 = BigNat::from_u32(560);
    let d = BigNat::from_u32(35);
    assert!(!mr_witness_passes(&BigNat::from_u32(2), &d, 4, &n, &nm1));
    // bases at or above n - 1 always pass
    assert!(mr_witness_passes(&BigNat::from_u32(560), &d, 4, &n, &nm1));
}

#[test]
fn miller_rabin_small_cases() {
    let mut rng = rand::thread_rng();
    assert!(!is_prime_miller_rabin(&BigNat::zero(), 15, &mut rng));
    assert!(!is_prime_miller_rabin(&BigNat::from_u32(1), 15, &mut rng));
    assert!(is_prime_miller_rabin(&BigNat::from_u32(2), 15, &mut rng));
    assert!(is_prime_miller_rabin(&BigNat::from_u32(3), 15, &mut rng));
    assert!(!is_prime_miller_rabin(&BigNat::from_u32(4), 15, &mut rng));
    assert!(is_prime_miller_rabin(&BigNat::from_u32(5), 15, &mut rng));
    assert!(!is_prime_miller_rabin(&BigNat::from_u32(9), 15, &mut rng));
    assert!(!is_prime_miller_rabin(&BigNat::from_u32(561), 15, &mut rng));
    assert!(is_prime_miller_rabin(&BigNat::from_u32(97), 0, &mut rng));
}

#[test]
fn miller_rabin_accepts_every_small_prime() {
    let mut rng = rand::thread_rng();
    for n in 2u32..400 {
        let prime = (2..n).all(|d| n % d != 0);
        let answer = is_prime_miller_rabin(&BigNat::from_u32(n), 15, &mut rng);
        if prime {
            assert!(answer, "{} is prime", n);
        }
        if n % 2 == 0 && n > 2 {
            assert!(!answer);
        }
    }
}

#[test]
fn miller_rabin_on_large_numbers() {
    let mut rng = rand::thread_rng();
    // 2^61 - 1 is prime
    let m61 = big(vec![0xffff_ffff, 0x1fff_ffff]);
    assert!(is_prime_miller_rabin(&m61, 15, &mut rng));
    // 2^61 + 1 is divisible by 3
    let p61 = big(vec![1, 0x2000_0000]);
    assert!(!is_prime_miller_rabin(&p61, 15, &mut rng));
    // 2^127 - 1 is prime
    let m127 = big(vec![0xffff_ffff, 0xffff_ffff, 0xffff_ffff, 0x7fff_ffff]);
    assert!(two_exponent_fits_u32(&m127));
    assert!(two_exponent_fits_u32(&BigNat::zero()));
    assert!(two_exponent_fits_u32(&BigNat::from_u32(4294967295)));
    assert!(two_exponent_fits_u32(&BigNat::from_u32(65537)));
    assert!(is_prime_miller_rabin(&m127, 15, &mut rng));
}
