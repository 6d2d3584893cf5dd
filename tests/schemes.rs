use lwe_crypto::linalg::DimensionMismatch;
use lwe_crypto::noise::sample_uniform_vector;
use lwe_crypto::{module_lwe, regev, ringlwe};
use rand::rngs::StdRng;
use rand::SeedableRng;

fn bits_of(s: &str) -> Vec<i64> {
    s.chars().map(|c| if c == '1' { 1 } else { 0 }).collect()
}

#[test]
fn regev_default_parameters() {
    let p = regev::setup();
    assert_eq!((p.dimensions, p.rank, p.modulo), (128, 594, 16411));
    let m = regev::modify_params(10, 25, 181);
    assert_eq!((m.dimensions, m.rank, m.modulo), (10, 25, 181));
}

#[test]
fn regev_small_parameters_round_trip_in_all_trials() {
    let params = regev::modify_params(10, 25, 181);
    let message = bits_of("01101001");
    let mut rng = StdRng::seed_from_u64(1);
    let mut successes = 0;
    for _ in 0..1000 {
        let (pk, sk) = regev::key_gen(&params, &mut rng);
        let (preamble, scalars) = regev::encrypt(&message, &pk, &params, &mut rng).unwrap();
        let out = regev::decrypt(&preamble, &scalars, &sk, &params).unwrap();
        if out == message {
            successes += 1;
        }
    }
    assert!(successes >= 990, "successes = {}", successes);
}

#[test]
fn regev_without_noise_always_round_trips() {
    let params = regev::modify_params(10, 25, 181);
    let message = bits_of("01101001");
    let mut rng = StdRng::seed_from_u64(2);
    for _ in 0..100 {
        let a: Vec<Vec<i64>> = (0..10).map(|_| sample_uniform_vector(&mut rng, 25, 181)).collect();
        let s = sample_uniform_vector(&mut rng, 10, 181);
        let e = vec![0i64; 25];
        let (pk, sk) = regev::key_gen_with(&params, &a, &s, &e).unwrap();
        let (preamble, scalars) = regev::encrypt(&message, &pk, &params, &mut rng).unwrap();
        assert_eq!(regev::decrypt(&preamble, &scalars, &sk, &params).unwrap(), message);
    }
}

#[test]
fn regev_default_parameters_round_trip() {
    let params = regev::setup();
    let mut rng = StdRng::seed_from_u64(3);
    let message = sample_uniform_vector(&mut rng, 128, 2);
    let (pk, sk) = regev::key_gen(&params, &mut rng);
    let (preamble, scalars) = regev::encrypt(&message, &pk, &params, &mut rng).unwrap();
    assert_eq!(preamble.len(), 128);
    assert_eq!(regev::decrypt(&preamble, &scalars, &sk, &params).unwrap(), message);
}

#[test]
fn regev_key_gen_with_computes_public_vector() {
    let params = regev::modify_params(2, 3, 17);
    let a = vec![vec![1, 2, 3], vec![4, 5, 20]];
    let s = vec![2, -1];
    let e = vec![1, 0, -1];
    let (pk, sk) = regev::key_gen_with(&params, &a, &s, &e).unwrap();
    // s is stored as [2, 16]; A as [[1, 2, 3], [4, 5, 3]].
    assert_eq!(sk.secret_vector, vec![2, 16]);
    assert_eq!(pk.matrix, vec![vec![1, 2, 3], vec![4, 5, 3]]);
    // s A + e = [2 + 64 + 1, 4 + 80, 6 + 48 - 1] mod 17.
    assert_eq!(pk.public_vector, vec![67 % 17, 84 % 17, 53 % 17]);
}

#[test]
fn regev_encrypt_with_exact_values() {
    let params = regev::modify_params(2, 3, 17);
    let a = vec![vec![1, 2, 3], vec![4, 5, 6]];
    let (pk, _) = regev::key_gen_with(&params, &a, &vec![1, 1], &vec![0, 0, 0]).unwrap();
    assert_eq!(pk.public_vector, vec![5, 7, 9]);
    let x = vec![vec![1, 0], vec![1, 1], vec![0, 1]];
    let (preamble, scalars) = regev::encrypt_with(&vec![1, 0], &pk, &params, &x, &vec![0, 1]).unwrap();
    assert_eq!(preamble, vec![vec![3, 5], vec![9, 11]]);
    // b x = [12, 16]; plus noise [0, 1] and [8, 0]; mod 17.
    assert_eq!(scalars, vec![3, 0]);
}

#[test]
fn regev_dimension_errors() {
    let params = regev::modify_params(2, 3, 17);
    let a = vec![vec![1, 2, 3], vec![4, 5]];
    assert_eq!(
        regev::key_gen_with(&params, &a, &vec![1, 1], &vec![0, 0, 0]).err(),
        Some(DimensionMismatch { expected: 3, found: 2 })
    );
    let a = vec![vec![1, 2, 3], vec![4, 5, 6]];
    assert_eq!(
        regev::key_gen_with(&params, &a, &vec![1], &vec![0, 0, 0]).err(),
        Some(DimensionMismatch { expected: 2, found: 1 })
    );
    let (pk, sk) = regev::key_gen_with(&params, &a, &vec![1, 1], &vec![0, 0, 0]).unwrap();
    let x = vec![vec![1, 0], vec![1, 1]];
    assert!(regev::encrypt_with(&vec![1, 0], &pk, &params, &x, &vec![0, 0]).is_err());
    let x = vec![vec![1, 0], vec![1, 1], vec![0, 1]];
    assert_eq!(
        regev::encrypt_with(&vec![1, 0], &pk, &params, &x, &vec![0]),
        Err(DimensionMismatch { expected: 2, found: 1 })
    );
    let mut rng = StdRng::seed_from_u64(12);
    let short_key = regev::PublicKey { matrix: pk.matrix.clone(), public_vector: vec![1, 2] };
    assert_eq!(
        regev::encrypt(&vec![1, 0], &short_key, &params, &mut rng),
        Err(DimensionMismatch { expected: 3, found: 2 })
    );
    let flat_key = regev::PublicKey { matrix: vec![vec![1, 2, 3]], public_vector: vec![1, 2, 3] };
    assert_eq!(
        regev::encrypt(&vec![1, 0], &flat_key, &params, &mut rng),
        Err(DimensionMismatch { expected: 2, found: 1 })
    );
    let short_secret = regev::PrivateKey { secret_vector: vec![1] };
    assert_eq!(
        regev::decrypt(&vec![vec![1, 2], vec![3, 4]], &vec![1, 2], &short_secret, &params),
        Err(DimensionMismatch { expected: 2, found: 1 })
    );
    assert_eq!(
        regev::decrypt(&vec![vec![1, 2]], &vec![1, 2], &sk, &params),
        Err(DimensionMismatch { expected: 2, found: 1 })
    );
}

#[test]
fn ringlwe_default_parameters() {
    let p = ringlwe::setup();
    assert_eq!((p.dimension, p.modulo), (512, 3329));
}

#[test]
fn ringlwe_round_trip_has_few_bit_errors() {
    let params = ringlwe::setup();
    let mut rng = StdRng::seed_from_u64(4);
    let mut errors = 0;
    let trials = 5;
    for _ in 0..trials {
        let message = sample_uniform_vector(&mut rng, 512, 2);
        let (pk, sk) = ringlwe::key_gen(&params, &mut rng);
        let (preamble, scalars) = ringlwe::encrypt(&message, &params, &pk, &mut rng).unwrap();
        let out = ringlwe::decrypt(&preamble, &scalars, &params, &sk).unwrap();
        errors += out.iter().zip(message.iter()).filter(|(a, b)| a != b).count();
    }
    assert!(errors * 100 <= 512 * trials, "bit errors = {}", errors);
}

#[test]
fn ringlwe_exact_small_ring() {
    let params = ringlwe::SecurityParameters { dimension: 2, modulo: 97 };
    let (pk, sk) = ringlwe::key_gen_with(&params, &vec![1, 2], &vec![3, -4], &vec![1, 0]).unwrap();
    // (1 + 2x)(3 - 4x) = 3 + 2x - 8x^2 = 11 + 2x; plus e.
    assert_eq!(sk.secret_vector, vec![3, 93]);
    assert_eq!(pk.error_polynomial, vec![12, 2]);
    let (preamble, scalars) =
        ringlwe::encrypt_with(&vec![0, 1], &params, &pk, &vec![1, 0], &vec![0, 0], &vec![0, 0]).unwrap();
    assert_eq!(preamble, vec![1, 2]);
    assert_eq!(scalars, vec![12, 2 + 48]);
    assert_eq!(ringlwe::decrypt(&preamble, &scalars, &params, &sk).unwrap(), vec![0, 1]);
}

#[test]
fn ringlwe_dimension_errors() {
    let params = ringlwe::setup();
    let mut rng = StdRng::seed_from_u64(5);
    let (pk, sk) = ringlwe::key_gen(&params, &mut rng);
    assert_eq!(
        ringlwe::encrypt(&vec![1, 0, 1], &params, &pk, &mut rng),
        Err(DimensionMismatch { expected: 512, found: 3 })
    );
    assert_eq!(
        ringlwe::decrypt(&vec![0; 512], &vec![0; 10], &params, &sk),
        Err(DimensionMismatch { expected: 512, found: 10 })
    );
    assert!(ringlwe::key_gen_with(&params, &vec![0; 3], &vec![0; 512], &vec![0; 512]).is_err());
    let short_key = ringlwe::PublicKey { polynomial: vec![0; 511], error_polynomial: vec![0; 512] };
    assert_eq!(
        ringlwe::encrypt(&vec![0; 512], &params, &short_key, &mut rng),
        Err(DimensionMismatch { expected: 512, found: 511 })
    );
    let short_secret = ringlwe::PrivateKey { secret_vector: vec![0; 100] };
    assert_eq!(
        ringlwe::decrypt(&vec![0; 512], &vec![0; 512], &params, &short_secret),
        Err(DimensionMismatch { expected: 512, found: 100 })
    );
}

#[test]
fn module_lwe_all_ones_round_trip() {
    let k = 128usize;
    let q = 12289i64;
    let mut rng = StdRng::seed_from_u64(6);
    for _ in 0..3 {
        let (a, s0, _e0, p0) = module_lwe::keygen(k, q, &mut rng);
        let m = vec![1i64; k];
        let (p1, c) = module_lwe::encrypt(&a, &p0, &m, q, &mut rng).unwrap();
        assert_eq!(module_lwe::decrypt(&p1, &c, &s0, q).unwrap(), m);
    }
}

#[test]
fn module_lwe_exact_values() {
    let a = vec![vec![1, 2], vec![3, 4]];
    let p0 = module_lwe::keygen_with(&a, &vec![1, -1], &vec![0, 1], 17).unwrap();
    // A s0 + e0 = [-1, 0] mod 17.
    assert_eq!(p0, vec![16, 0]);
    let (p1, c) = module_lwe::encrypt_with(&a, &p0, &vec![1, 0], 17, &vec![1, 1], &vec![0, 0], 0).unwrap();
    // s1 A = [4, 6]; s1 . p0 = 16; c = [8 + 16, 16] mod 17.
    assert_eq!(p1, vec![4, 6]);
    assert_eq!(c, vec![7, 16]);
    assert_eq!(module_lwe::decrypt(&p1, &c, &vec![1, -1], 17).unwrap(), vec![1, 0]);
}

#[test]
fn module_lwe_dimension_errors() {
    let mut rng = StdRng::seed_from_u64(7);
    let (a, s0, _e0, p0) = module_lwe::keygen(4, 97, &mut rng);
    assert_eq!(
        module_lwe::encrypt(&a, &p0, &vec![1, 1], 97, &mut rng),
        Err(DimensionMismatch { expected: 4, found: 2 })
    );
    assert_eq!(
        module_lwe::decrypt(&vec![1, 2, 3], &vec![0], &s0, 97),
        Err(DimensionMismatch { expected: 4, found: 3 })
    );
    assert!(module_lwe::keygen_with(&vec![vec![1, 2], vec![3]], &vec![0, 0], &vec![0, 0], 97).is_err());
    assert_eq!(
        module_lwe::encrypt(&a, &vec![1, 2, 3], &vec![1, 1, 1, 1], 97, &mut rng),
        Err(DimensionMismatch { expected: 4, found: 3 })
    );
    let ragged = vec![vec![1, 2], vec![3]];
    assert_eq!(
        module_lwe::encrypt_with(&ragged, &vec![1, 2], &vec![1, 1], 97, &vec![1, 0], &vec![0, 0], 0),
        Err(DimensionMismatch { expected: 2, found: 1 })
    );
}

#[test]
fn ringlwe_without_noise_round_trips_exactly() {
    let params = ringlwe::setup();
    let mut rng = StdRng::seed_from_u64(10);
    let zeros = vec![0i64; 512];
    for _ in 0..2 {
        let a = sample_uniform_vector(&mut rng, 512, 3329);
        let s: Vec<i64> = sample_uniform_vector(&mut rng, 512, 3).iter().map(|x| x - 1).collect();
        let r: Vec<i64> = sample_uniform_vector(&mut rng, 512, 3).iter().map(|x| x - 1).collect();
        let message = sample_uniform_vector(&mut rng, 512, 2);
        let (pk, sk) = ringlwe::key_gen_with(&params, &a, &s, &zeros).unwrap();
        let (preamble, scalars) = ringlwe::encrypt_with(&message, &params, &pk, &r, &zeros, &zeros).unwrap();
        assert_eq!(ringlwe::decrypt(&preamble, &scalars, &params, &sk).unwrap(), message);
    }
}

#[test]
fn ring_mul_wraps_with_sign() {
    // (1 + x)(1 + x) = 1 + 2x + x^2 = 2x in Z[x]/(x^2 + 1).
    assert_eq!(ringlwe::ring_mul(&vec![1, 1], &vec![1, 1], 2, 17), vec![0, 2]);
    // x^2 * x^2 = x^4 = -1 in Z[x]/(x^4 + 1).
    assert_eq!(ringlwe::ring_mul(&vec![0, 0, 1, 0], &vec![0, 0, 1, 0], 4, 17), vec![16, 0, 0, 0]);
}
