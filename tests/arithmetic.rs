use lwe_crypto::encoding::threshold_bit;
use lwe_crypto::linalg::{
    add, column_of, dot_product, matrix_product, matrix_vector, modular, modular_mat, scale, sub,
    transpose, vector_matrix, DimensionMismatch,
};
use lwe_crypto::modular::{add_mod, reduce_mod, sub_mod};
use lwe_crypto::noise::{cdf_lookup, sample_cdf, sample_noise, sample_uniform_matrix, sample_uniform_vector, CdfTable};
use lwe_crypto::poly::{multiply, poly_mul, reduce};
use rand::rngs::StdRng;
use rand::SeedableRng;

#[test]
fn reduce_mod_is_canonical_for_negative_and_large_inputs() {
    assert_eq!(reduce_mod(-7, 5), 3);
    assert_eq!(reduce_mod(7, 5), 2);
    assert_eq!(reduce_mod(-5, 5), 0);
    assert_eq!(reduce_mod(0, 181), 0);
    assert_eq!(reduce_mod(i64::MIN, 97), i64::MIN.rem_euclid(97));
    assert_eq!(reduce_mod(i64::MAX, 16411), i64::MAX % 16411);
    for x in [-1_000_000_007i64, -1, -96, -97, -98, 12345, i64::MIN + 1] {
        let r = reduce_mod(x, 97);
        assert!((0..97).contains(&r));
        assert_eq!((r as i128 - x as i128).rem_euclid(97), 0);
    }
}

#[test]
fn add_and_sub_mod_stay_in_range() {
    assert_eq!(add_mod(90, 10, 97), 3);
    assert_eq!(add_mod(1, 2, 97), 3);
    assert_eq!(sub_mod(1, 2, 97), 96);
    assert_eq!(sub_mod(50, 2, 97), 48);
}

#[test]
fn vector_add_sub_scale() {
    assert_eq!(add(&vec![1, 2, 3], &vec![10, 20, 30]), Ok(vec![11, 22, 33]));
    assert_eq!(sub(&vec![1, 2, 3], &vec![10, 20, 30]), Ok(vec![-9, -18, -27]));
    assert_eq!(scale(&vec![1, -2, 3], 4), vec![4, -8, 12]);
}

#[test]
fn vector_length_mismatch_is_reported() {
    assert_eq!(add(&vec![1, 2, 3], &vec![1, 2]), Err(DimensionMismatch { expected: 3, found: 2 }));
    assert_eq!(sub(&vec![1], &vec![1, 2]), Err(DimensionMismatch { expected: 1, found: 2 }));
}

#[test]
fn dot_and_matrix_products() {
    assert_eq!(dot_product(&vec![1, 2, 3], &vec![4, -5, 6]), 12);
    let a = vec![vec![1, 2, 3], vec![4, 5, 6]];
    assert_eq!(column_of(&a, 1), vec![2, 5]);
    assert_eq!(transpose(&a, 3), vec![vec![1, 4], vec![2, 5], vec![3, 6]]);
    assert_eq!(vector_matrix(&vec![1, -1], &a, 3), vec![-3, -3, -3]);
    assert_eq!(matrix_vector(&a, &vec![1, 0, 2]), vec![7, 16]);
    let x = vec![vec![1, 0], vec![0, 1], vec![1, 1]];
    assert_eq!(matrix_product(&a, &x, 2), vec![vec![4, 5], vec![10, 11]]);
}

#[test]
fn modular_reduces_every_entry() {
    assert_eq!(modular(&vec![-1, 5, 7, -8], 7), vec![6, 5, 0, 6]);
    assert_eq!(modular_mat(&vec![vec![-1, 8], vec![14, -15]], 7), vec![vec![6, 1], vec![0, 6]]);
}

#[test]
fn multiply_gives_raw_product() {
    assert_eq!(multiply(&vec![1, 2], &vec![3, 4]), vec![3, 10, 8]);
    assert_eq!(multiply(&vec![1, 1, 1], &vec![1, -1]), vec![1, 0, 0, -1]);
    assert_eq!(multiply(&vec![], &vec![1, 2]), Vec::<i64>::new());
}

#[test]
fn reduce_folds_modulo_x_n_plus_one() {
    // 3 + 10x + 8x^2 with x^2 = -1 is -5 + 10x.
    assert_eq!(reduce(&vec![3, 10, 8], 2, 97), vec![92, 10]);
    // x^4 = x^2 * x^2 = 1 for n = 2.
    assert_eq!(reduce(&vec![0, 0, 0, 0, 5], 2, 97), vec![5, 0]);
    assert_eq!(reduce(&vec![1, 2], 4, 97), vec![1, 2, 0, 0]);
}

#[test]
fn poly_mul_matches_negacyclic_product() {
    assert_eq!(poly_mul(&vec![1, 2], &vec![3, 4], 2, 97), vec![92, 10]);
    // x * x^3 = x^4 = -1 in Z[x]/(x^4 + 1).
    assert_eq!(poly_mul(&vec![0, 1, 0, 0], &vec![0, 0, 0, 1], 4, 97), vec![96, 0, 0, 0]);
}

fn schoolbook_negacyclic(a: &[i64], b: &[i64], n: usize, q: i64) -> Vec<i64> {
    let mut r = vec![0i64; n];
    for i in 0..n {
        for j in 0..n {
            let k = (i + j) % n;
            let t = a[i] * b[j];
            if i + j >= n {
                r[k] -= t;
            } else {
                r[k] += t;
            }
        }
    }
    r.iter().map(|x| x.rem_euclid(q)).collect()
}

#[test]
fn multiply_then_reduce_agrees_with_schoolbook() {
    let mut rng = StdRng::seed_from_u64(11);
    for &(n, q) in &[(8usize, 97i64), (64, 257), (128, 3329), (512, 3329)] {
        let a = sample_uniform_vector(&mut rng, n, q);
        let b = sample_uniform_vector(&mut rng, n, q);
        let expected = schoolbook_negacyclic(&a, &b, n, q);
        assert_eq!(reduce(&multiply(&a, &b), n, q), expected);
        assert_eq!(poly_mul(&a, &b, n, q), expected);
    }
}

#[test]
fn threshold_bit_uses_a_quarter_of_the_modulus() {
    // q = 181: q / 4 = 45.
    assert_eq!(threshold_bit(0, 181), 0);
    assert_eq!(threshold_bit(45, 181), 0);
    assert_eq!(threshold_bit(46, 181), 1);
    assert_eq!(threshold_bit(90, 181), 1);
    assert_eq!(threshold_bit(135, 181), 1);
    assert_eq!(threshold_bit(136, 181), 0);
    assert_eq!(threshold_bit(180, 181), 0);
}

#[test]
fn cdf_lookup_counts_entries_at_most_the_draw() {
    let t = CdfTable::ternary();
    assert_eq!(cdf_lookup(&t, 0, 0), 0);
    assert_eq!(cdf_lookup(&t, 1, 1), 0);
    assert_eq!(cdf_lookup(&t, 2, 0), 1);
    assert_eq!(cdf_lookup(&t, 3, 1), -1);
    let u = CdfTable::unit_normal();
    assert_eq!(cdf_lookup(&u, 698, 0), 0);
    assert_eq!(cdf_lookup(&u, 699, 0), 1);
    assert_eq!(cdf_lookup(&u, 1000, 1), -2);
    assert_eq!(cdf_lookup(&u, 1023, 0), 3);
}

#[test]
fn sampled_noise_is_small_and_varied() {
    let mut rng = StdRng::seed_from_u64(3);
    let t = CdfTable::unit_normal();
    let e = sample_noise(&mut rng, &t, 2000);
    assert!(e.iter().all(|x| (-3..=3).contains(x)));
    assert!(e.iter().any(|&x| x > 0));
    assert!(e.iter().any(|&x| x < 0));
    let zeros = e.iter().filter(|&&x| x == 0).count();
    // About 68% of the draws are zero.
    assert!(zeros > 1200 && zeros < 1550, "zeros = {}", zeros);
    let one = sample_cdf(&mut rng, &CdfTable::ternary());
    assert!((-1..=1).contains(&one));
}

#[test]
fn uniform_samples_cover_the_range() {
    let mut rng = StdRng::seed_from_u64(5);
    let v = sample_uniform_vector(&mut rng, 200, 1000);
    assert!(v.iter().all(|x| (0..1000).contains(x)));
    assert!(v.iter().any(|&x| x != v[0]));
    let m = sample_uniform_matrix(&mut rng, 3, 4, 2);
    assert_eq!(m.len(), 3);
    assert!(m.iter().all(|row| row.len() == 4 && row.iter().all(|x| *x == 0 || *x == 1)));
}

#[test]
fn uniform_samples_pass_chi_square() {
    let mut rng = StdRng::seed_from_u64(2024);
    let q = 97i64;
    let per_bin = 100usize;
    let v = sample_uniform_vector(&mut rng, q as usize * per_bin, q);
    let mut counts = vec![0usize; q as usize];
    for x in &v {
        counts[*x as usize] += 1;
    }
    let expected = per_bin as f64;
    let chi: f64 = counts.iter().map(|&c| (c as f64 - expected).powi(2) / expected).sum();
    // 96 degrees of freedom: the 99.9% quantile is about 140.
    assert!(chi < 140.0, "chi-square = {}", chi);
}
