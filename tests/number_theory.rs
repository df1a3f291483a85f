use suffix::number_theory::{calc_phi, euler_vec, factorize, gcd, gen_all_factors};

#[test]
fn factor_test() {
    let (_, pr) = euler_vec(1000);
    for n in 2..=32 {
        for x in gen_all_factors(&factorize(n, &pr)) {
            assert!(n % x == 0);
        }
    }
}

#[test]
fn gcd_values() {
    assert_eq!(gcd(12, 18), 6);
    assert_eq!(gcd(7, 0), 7);
    assert_eq!(gcd(0, 9), 9);
    assert_eq!(gcd(17, 5), 1);
}

#[test]
fn sieve_up_to_thirty() {
    let (minf, pr) = euler_vec(30);
    assert_eq!(pr, vec![2, 3, 5, 7, 11, 13, 17, 19, 23, 29]);
    assert_eq!(minf.len(), 31);
    assert_eq!(minf[12], 2);
    assert_eq!(minf[25], 5);
    assert_eq!(minf[29], 29);
}

#[test]
fn factorize_values() {
    let (_, pr) = euler_vec(100);
    assert_eq!(factorize(360, &pr), vec![(2, 3), (3, 2), (5, 1)]);
    assert_eq!(factorize(97, &pr), vec![(97, 1)]);
    assert_eq!(factorize(1, &pr), vec![]);
}

#[test]
fn all_factors_of_twelve() {
    let mut f = gen_all_factors(&vec![(2, 2), (3, 1)]);
    f.sort();
    assert_eq!(f, vec![1, 2, 3, 4, 6, 12]);
}

#[test]
fn totients() {
    let (_, pr) = euler_vec(100);
    assert_eq!(calc_phi(1, &pr), 1);
    assert_eq!(calc_phi(9, &pr), 6);
    assert_eq!(calc_phi(36, &pr), 12);
    assert_eq!(calc_phi(97, &pr), 96);
}
